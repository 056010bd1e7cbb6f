//! The resource tracker: availability, allocation and need, guarded by the
//! Banker's safety check.
use vstd::prelude::*;
use crate::banker::{
    can_finish, col_sum, complement, every_row, is_safe, lemma_masked_sum_change,
    lemma_masked_sum_entry, lemma_masked_sum_same, lemma_masked_sum_zero, matrix, safety_check,
    shaped, stuck_group, work_after,
};

verus! {

/// Answer of the tracker to a request.
#[derive(Clone, Copy, Debug, PartialEq, Eq, Structural)]
pub enum Safety {
    Safe,
    Unsafe,
}

/// Length of a dimension once handle `h` has been referenced.
pub open spec fn grown_len(len: int, h: int) -> int {
    if h < len {
        len
    } else {
        h + 1
    }
}

/// `v` extended with zeros to `cols` entries.
pub open spec fn grow_vec(v: Seq<usize>, cols: int) -> Seq<usize> {
    Seq::new(cols as nat, |j: int| if j < v.len() { v[j] } else { 0usize })
}

/// `m` extended with zero rows to `rows` rows, and every row with zeros to `cols` entries.
pub open spec fn grow_matrix(m: Seq<Seq<usize>>, rows: int, cols: int) -> Seq<Seq<usize>> {
    Seq::new(
        rows as nat,
        |i: int| grow_vec(if i < m.len() { m[i] } else { Seq::<usize>::empty() }, cols),
    )
}

/// `m` with entry (`t`, `r`) replaced by `x`.
pub open spec fn set_entry(m: Seq<Seq<usize>>, t: int, r: int, x: int) -> Seq<Seq<usize>> {
    m.update(t, m[t].update(r, x as usize))
}

/// A rows-by-cols matrix of zeros.
pub open spec fn zeros(rows: int, cols: int) -> Seq<Seq<usize>> {
    Seq::new(rows as nat, |i: int| Seq::new(cols as nat, |j: int| 0usize))
}

/// `new` is what `request(t, r)` leaves behind in `old` when it answers `res`.
pub open spec fn request_done(
    old: DeadLockDetector,
    t: int,
    r: int,
    res: Safety,
    new: DeadLockDetector,
) -> bool {
    &&& res == Safety::Safe <==> (!old.detecting() || old.request_is_safe(t, r))
    &&& res == Safety::Safe ==> {
        &&& new.capacities() == grow_vec(old.capacities(), grown_len(old.resource_count(), r))
        &&& new.available() == grow_vec(old.available(), grown_len(old.resource_count(), r))
        &&& new.allocation() == old.allocation_grown(t, r)
        &&& new.needs() == old.needs_with_request(t, r)
        &&& new.detecting() == old.detecting()
        &&& new.task_count() == grown_len(old.task_count(), t)
        &&& new.resource_count() == grown_len(old.resource_count(), r)
    }
    &&& res == Safety::Unsafe ==> new.same_state(&old)
}

/// `new` is what `commit_allocation(t, r)` leaves behind in `old` when it answers `granted`.
pub open spec fn commit_done(
    old: DeadLockDetector,
    t: int,
    r: int,
    granted: bool,
    new: DeadLockDetector,
) -> bool {
    &&& granted == old.can_commit(t, r)
    &&& granted ==> {
        &&& new.available() == old.available().update(r, (old.available()[r] - 1) as usize)
        &&& new.allocation() == set_entry(old.allocation(), t, r, old.allocation()[t][r] + 1)
        &&& new.needs() == set_entry(old.needs(), t, r, old.needs()[t][r] - 1)
        &&& new.capacities() == old.capacities()
        &&& new.detecting() == old.detecting()
    }
    &&& !granted ==> new.same_state(&old)
}

/// `new` is what `release(t, r)` leaves behind in `old` when it answers `done`.
pub open spec fn release_done(
    old: DeadLockDetector,
    t: int,
    r: int,
    done: bool,
    new: DeadLockDetector,
) -> bool {
    &&& done == old.can_release(t, r)
    &&& done ==> {
        &&& new.available() == old.available().update(r, (old.available()[r] + 1) as usize)
        &&& new.allocation() == set_entry(old.allocation(), t, r, old.allocation()[t][r] - 1)
        &&& new.needs() == old.needs()
        &&& new.capacities() == old.capacities()
        &&& new.detecting() == old.detecting()
    }
    &&& !done ==> new.same_state(&old)
}

/// `new` is `old` with one more resource of `capacity` units, all free.
pub open spec fn resource_added(old: DeadLockDetector, capacity: usize, new: DeadLockDetector) -> bool {
    &&& new.capacities() == old.capacities().push(capacity)
    &&& new.available() == old.available().push(capacity)
    &&& new.allocation() == grow_matrix(old.allocation(), old.task_count(), old.resource_count() + 1)
    &&& new.needs() == grow_matrix(old.needs(), old.task_count(), old.resource_count() + 1)
    &&& new.detecting() == old.detecting()
}

/// A request that mentions handles past the current size is not refused for that:
/// once granted, the matrices cover both handles, every entry that existed keeps its
/// value, and every new entry is zero except the requested unit of need.
pub proof fn lemma_request_grows_with_zeros(
    old: DeadLockDetector,
    new: DeadLockDetector,
    t: int,
    r: int,
)
    requires
        old.wf(),
        0 <= t,
        0 <= r,
        old.need_at(t, r) < usize::MAX,
        request_done(old, t, r, Safety::Safe, new),
    ensures
        new.task_count() == grown_len(old.task_count(), t),
        new.resource_count() == grown_len(old.resource_count(), r),
        t < new.task_count() && r < new.resource_count(),
        forall|i: int, j: int|
            0 <= i < new.task_count() && 0 <= j < new.resource_count() ==> {
                let seen = i < old.task_count() && j < old.resource_count();
                &&& #[trigger] new.allocation()[i][j] == if seen {
                    old.allocation()[i][j]
                } else {
                    0
                }
                &&& new.needs()[i][j] == (if seen {
                    old.needs()[i][j]
                } else {
                    0
                }) + if i == t && j == r {
                    1int
                } else {
                    0
                }
            },
        forall|j: int|
            old.resource_count() <= j < new.resource_count() ==> #[trigger] new.capacities()[j] == 0
                && new.available()[j] == 0,
{
    assert forall|i: int, j: int|
        0 <= i < new.task_count() && 0 <= j < new.resource_count() implies {
            let seen = i < old.task_count() && j < old.resource_count();
            &&& #[trigger] new.allocation()[i][j] == if seen {
                old.allocation()[i][j]
            } else {
                0
            }
            &&& new.needs()[i][j] == (if seen {
                old.needs()[i][j]
            } else {
                0
            }) + if i == t && j == r {
                1int
            } else {
                0
            }
        } by {
        let rows = grown_len(old.task_count(), t);
        let cols = grown_len(old.resource_count(), r);
        let g = grow_matrix(old.needs(), rows, cols);
        if i < old.task_count() {
            assert(old.allocation()[i].len() == old.resource_count());
            assert(old.needs()[i].len() == old.resource_count());
        }
        assert(new.allocation()[i] == grow_vec(
            if i < old.task_count() { old.allocation()[i] } else { Seq::<usize>::empty() },
            cols,
        ));
        assert(g[i] == grow_vec(
            if i < old.task_count() { old.needs()[i] } else { Seq::<usize>::empty() },
            cols,
        ));
        assert(g[t].len() == cols);
        if t < old.task_count() {
            assert(old.needs()[t].len() == old.resource_count());
        }
        assert(g[t][r] == old.need_at(t, r));
        if i == t {
            assert(new.needs()[i] == g[t].update(r, (g[t][r] + 1) as usize));
        } else {
            assert(new.needs()[i] == g[i]);
        }
    }
}

/// Tracks, for each resource, its capacity and free units, and for each task the
/// units it holds and the units it has asked for and not yet been granted.
#[derive(Clone, Debug, PartialEq, Eq)]
pub struct DeadLockDetector {
    capacity: Vec<usize>,
    avail: Vec<usize>,
    alloc: Vec<Vec<usize>>,
    need: Vec<Vec<usize>>,
    enabled: bool,
}

impl DeadLockDetector {
    /// Total units of each resource.
    pub closed spec fn capacities(&self) -> Seq<usize> {
        self.capacity@
    }

    /// Free units of each resource.
    pub closed spec fn available(&self) -> Seq<usize> {
        self.avail@
    }

    /// Units of each resource held by each task.
    pub closed spec fn allocation(&self) -> Seq<Seq<usize>> {
        matrix(self.alloc@)
    }

    /// Units of each resource each task waits for.
    pub closed spec fn needs(&self) -> Seq<Seq<usize>> {
        matrix(self.need@)
    }

    /// Whether requests are checked.
    pub closed spec fn detecting(&self) -> bool {
        self.enabled
    }

    pub open spec fn task_count(&self) -> int {
        self.allocation().len() as int
    }

    pub open spec fn resource_count(&self) -> int {
        self.available().len() as int
    }

    /// Every unit of every resource is either free or held by exactly one task.
    pub open spec fn conserved(&self) -> bool {
        forall|r: int|
            0 <= r < self.resource_count() ==> self.available()[r] + #[trigger] col_sum(
                self.allocation(),
                r,
            ) == self.capacities()[r]
    }

    pub open spec fn wf(&self) -> bool {
        &&& self.capacities().len() == self.available().len()
        &&& shaped(self.available(), self.allocation(), self.needs())
        &&& self.conserved()
    }

    /// The two trackers hold the same state.
    pub open spec fn same_state(&self, other: &Self) -> bool {
        &&& self.capacities() == other.capacities()
        &&& self.available() == other.available()
        &&& self.allocation() == other.allocation()
        &&& self.needs() == other.needs()
        &&& self.detecting() == other.detecting()
    }

    /// The need matrix once task `t` asks for one more unit of resource `r`,
    /// the matrices grown to cover both handles.
    pub open spec fn needs_with_request(&self, t: int, r: int) -> Seq<Seq<usize>> {
        let g = grow_matrix(
            self.needs(),
            grown_len(self.task_count(), t),
            grown_len(self.resource_count(), r),
        );
        set_entry(g, t, r, g[t][r] + 1)
    }

    /// The allocation matrix grown to cover task `t` and resource `r`.
    pub open spec fn allocation_grown(&self, t: int, r: int) -> Seq<Seq<usize>> {
        grow_matrix(
            self.allocation(),
            grown_len(self.task_count(), t),
            grown_len(self.resource_count(), r),
        )
    }

    /// Task `t` asked for a unit of resource `r` and one is free.
    pub open spec fn can_commit(&self, t: int, r: int) -> bool {
        0 <= t < self.task_count() && 0 <= r < self.resource_count() && self.needs()[t][r] > 0
            && self.available()[r] > 0
    }

    /// Task `t` holds a unit of resource `r`.
    pub open spec fn can_release(&self, t: int, r: int) -> bool {
        0 <= t < self.task_count() && 0 <= r < self.resource_count() && self.allocation()[t][r] > 0
    }

    /// Units of resource `r` task `t` waits for; zero for handles not yet seen.
    pub open spec fn need_at(&self, t: int, r: int) -> int {
        if 0 <= t < self.task_count() && 0 <= r < self.resource_count() {
            self.needs()[t][r] as int
        } else {
            0
        }
    }

    /// Whether the state after task `t` asks for one unit of resource `r` is safe.
    pub open spec fn request_is_safe(&self, t: int, r: int) -> bool {
        is_safe(
            grow_vec(self.available(), grown_len(self.resource_count(), r)),
            self.allocation_grown(t, r),
            self.needs_with_request(t, r),
        )
    }

    /// An empty tracker, with checking on.
    pub fn new() -> (d: Self)
        ensures
            d.wf(),
            d.task_count() == 0,
            d.resource_count() == 0,
            d.detecting(),
    {
        DeadLockDetector {
            capacity: Vec::new(),
            avail: Vec::new(),
            alloc: Vec::new(),
            need: Vec::new(),
            enabled: true,
        }
    }

    /// Units of resource `r` task `t` waits for; zero for handles not yet seen.
    pub fn need_of(&self, t: usize, r: usize) -> (v: usize)
        requires
            self.wf(),
        ensures
            v == self.need_at(t as int, r as int),
    {
        if t < self.need.len() && r < self.avail.len() {
            proof {
                assert(self.needs()[t as int] == self.need@[t as int]@);
            }
            self.need[t][r]
        } else {
            0
        }
    }

    /// Total units of resource `r`; zero for a handle not yet seen.
    pub fn capacity_of(&self, r: usize) -> (v: usize)
        requires
            self.wf(),
        ensures
            v == (if r < self.resource_count() { self.capacities()[r as int] } else { 0 }),
    {
        if r < self.capacity.len() {
            self.capacity[r]
        } else {
            0
        }
    }

    /// Free units of resource `r`; zero for a handle not yet seen.
    pub fn avail_of(&self, r: usize) -> (v: usize)
        requires
            self.wf(),
        ensures
            v == (if r < self.resource_count() { self.available()[r as int] } else { 0 }),
    {
        if r < self.avail.len() {
            self.avail[r]
        } else {
            0
        }
    }

    /// Units of resource `r` held by task `t`; zero for handles not yet seen.
    pub fn alloc_of(&self, t: usize, r: usize) -> (v: usize)
        requires
            self.wf(),
        ensures
            v == (if t < self.task_count() && r < self.resource_count() {
                self.allocation()[t as int][r as int]
            } else {
                0
            }),
    {
        if t < self.alloc.len() && r < self.avail.len() {
            proof {
                assert(self.allocation()[t as int] == self.alloc@[t as int]@);
            }
            self.alloc[t][r]
        } else {
            0
        }
    }

    /// Number of task rows, as a value.
    pub fn task_count_exec(&self) -> (n: usize)
        ensures
            n == self.task_count(),
    {
        self.alloc.len()
    }

    /// Whether requests are checked, as a value.
    pub fn is_enabled(&self) -> (b: bool)
        ensures
            b == self.detecting(),
    {
        self.enabled
    }

    /// Number of resources, as a value.
    pub fn resource_count_exec(&self) -> (m: usize)
        ensures
            m == self.resource_count(),
    {
        self.avail.len()
    }

    /// Turns checking on or off.
    pub fn enable(&mut self, enable: bool)
        ensures
            final(self).detecting() == enable,
            final(self).capacities() == old(self).capacities(),
            final(self).available() == old(self).available(),
            final(self).allocation() == old(self).allocation(),
            final(self).needs() == old(self).needs(),
    {
        self.enabled = enable;
    }
    /// Whether the current state would let a group of tasks wait on each other forever.
    /// Always false while checking is off.
    pub fn deadlock(&self) -> (r: bool)
        requires
            self.wf(),
        ensures
            r == (self.detecting() && !is_safe(self.available(), self.allocation(), self.needs())),
    {
        if !self.enabled {
            return false;
        }
        proof {
            assert forall|r: int| 0 <= r < self.avail.len() implies self.avail@[r] + #[trigger] col_sum(
                matrix(self.alloc@),
                r,
            ) <= usize::MAX by {
                assert(self.avail@[r] + col_sum(self.allocation(), r) == self.capacity@[r]);
            }
        }
        !safety_check(&self.avail, &self.alloc, &self.need)
    }

    /// Task `t` asks for one more unit of resource `r`. Handles past the current size
    /// first grow the matrices with zero rows and columns. While checking is on, the
    /// request is recorded as need only if the resulting state is safe; otherwise the
    /// tracker is left exactly as it was and the answer is `Unsafe`. While checking is
    /// off the request is always recorded and the answer is `Safe`.
    pub fn request(&mut self, t: usize, r: usize) -> (res: Safety)
        requires
            old(self).wf(),
            t < usize::MAX,
            r < usize::MAX,
            old(self).need_at(t as int, r as int) < usize::MAX,
        ensures
            final(self).wf(),
            res == Safety::Safe <==> (!old(self).detecting() || old(self).request_is_safe(
                t as int,
                r as int,
            )),
            !old(self).detecting() ==> res == Safety::Safe,
            request_done(*old(self), t as int, r as int, res, *final(self)),
            res == Safety::Unsafe ==> final(self).same_state(old(self)),
    {
        let ghost al0 = self.allocation();
        let ghost ne0 = self.needs();
        let ghost rows = grown_len(self.task_count(), t as int);
        let ghost cols = grown_len(self.resource_count(), r as int);
        let ghost m0 = self.resource_count();
        if !self.enabled {
            self.grow_tasks(t);
            self.grow_resources(r);
            proof {
                lemma_grow_grow(al0, rows, rows, m0, cols);
                lemma_grow_grow(ne0, rows, rows, m0, cols);
                assert(self.needs()[t as int] == self.need@[t as int]@);
            }
            let ghost g = self.needs();
            let x = self.need[t][r] + 1;
            self.need[t][r] = x;
            proof {
                assert(self.needs() =~~= set_entry(g, t as int, r as int, g[t as int][r as int] + 1));
            }
            return Safety::Safe;
        }
        if r >= self.avail.len() {
            proof {
                self.lemma_unknown_resource_unsafe(t as int, r as int);
            }
            return Safety::Unsafe;
        }
        let n0 = self.alloc.len();
        self.grow_tasks(t);
        proof {
            lemma_grow_vec_id(old(self).available());
            lemma_grow_vec_id(old(self).capacities());
            assert(self.needs()[t as int] == self.need@[t as int]@);
        }
        let ghost g = self.needs();
        let ghost alg = self.allocation();
        let x = self.need[t][r] + 1;
        self.need[t][r] = x;
        proof {
            assert(self.needs() =~~= set_entry(g, t as int, r as int, g[t as int][r as int] + 1));
            assert(self.allocation() == alg);
        }
        if !self.deadlock() {
            return Safety::Safe;
        }
        let y = self.need[t][r] - 1;
        self.need[t][r] = y;
        proof {
            assert(self.needs() =~~= g);
        }
        let ghost alg_v = self.alloc@;
        let ghost neg_v = self.need@;
        self.alloc.truncate(n0);
        self.need.truncate(n0);
        proof {
            assert forall|i: int| 0 <= i < n0 implies #[trigger] self.allocation()[i] == al0[i] by {
                assert(self.alloc@[i] == alg_v[i]);
                assert(self.allocation()[i] == alg[i]);
                assert(self.allocation()[i] =~= al0[i]);
            }
            assert forall|i: int| 0 <= i < n0 implies #[trigger] self.needs()[i] == ne0[i] by {
                assert(self.need@[i] == neg_v[i]);
                assert(self.needs()[i] == g[i]);
                assert(self.needs()[i] =~= ne0[i]);
            }
            assert(self.allocation() =~= al0);
            assert(self.needs() =~= ne0);
        }
        Safety::Unsafe
    }

    /// A unit of a resource that has no units can never be had: asking for one is unsafe.
    proof fn lemma_unknown_resource_unsafe(&self, t: int, r: int)
        requires
            self.wf(),
            0 <= t,
            r >= self.resource_count(),
        ensures
            !self.request_is_safe(t, r),
    {
        let rows = grown_len(self.task_count(), t);
        let cols = r + 1;
        let av = grow_vec(self.available(), cols);
        let al = self.allocation_grown(t, r);
        let ne = self.needs_with_request(t, r);
        let u = Seq::new(rows as nat, |i: int| i == t);
        assert forall|i: int| 0 <= i < rows implies #[trigger] al[i][r] == 0 by {
            if i < self.task_count() {
                assert(self.allocation()[i].len() == self.resource_count());
            }
        }
        lemma_masked_sum_zero(al, complement(u), r, rows);
        assert(work_after(av, al, complement(u), r) == 0);
        if t < self.task_count() {
            assert(self.needs()[t].len() == self.resource_count());
        }
        assert(ne[t][r] == 1);
        assert(!can_finish(av, al, ne, complement(u), t));
        assert(u[t]);
        assert(stuck_group(av, al, ne, u));
    }

    /// Grants task `t` one unit of resource `r` that it asked for: the unit moves from
    /// free to held and from needed to held. Nothing changes, and the result is false,
    /// when a handle is unknown, the task asked for no unit, or no unit is free.
    pub fn commit_allocation(&mut self, t: usize, r: usize) -> (granted: bool)
        requires
            old(self).wf(),
        ensures
            final(self).wf(),
            commit_done(*old(self), t as int, r as int, granted, *final(self)),
    {
        if t >= self.alloc.len() || r >= self.avail.len() {
            return false;
        }
        proof {
            assert(self.allocation()[t as int] == self.alloc@[t as int]@);
            assert(self.needs()[t as int] == self.need@[t as int]@);
        }
        if self.need[t][r] == 0 || self.avail[r] == 0 {
            return false;
        }
        let ghost al0 = self.allocation();
        let n = self.alloc.len();
        proof {
            lemma_masked_sum_entry(al0, every_row(n as int), t as int, r as int, n as int);
            assert(self.avail@[r as int] + col_sum(al0, r as int) == self.capacity@[r as int]);
        }
        let a = self.alloc[t][r] + 1;
        self.alloc[t][r] = a;
        let d = self.need[t][r] - 1;
        self.need[t][r] = d;
        let v = self.avail[r] - 1;
        self.avail.set(r, v);
        proof {
            assert(self.allocation() =~~= set_entry(al0, t as int, r as int, al0[t as int][r as int] + 1));
            assert(self.needs() =~~= set_entry(
                old(self).needs(),
                t as int,
                r as int,
                old(self).needs()[t as int][r as int] - 1,
            ));
            self.lemma_conserved_after_change(al0, old(self).available(), t as int, r as int);
        }
        true
    }

    /// Task `t` gives back one unit of resource `r` that it holds. Nothing changes, and
    /// the result is false, when a handle is unknown or the task holds no unit.
    pub fn release(&mut self, t: usize, r: usize) -> (released: bool)
        requires
            old(self).wf(),
        ensures
            final(self).wf(),
            release_done(*old(self), t as int, r as int, released, *final(self)),
    {
        if t >= self.alloc.len() || r >= self.avail.len() {
            return false;
        }
        proof {
            assert(self.allocation()[t as int] == self.alloc@[t as int]@);
        }
        if self.alloc[t][r] == 0 {
            return false;
        }
        let ghost al0 = self.allocation();
        let n = self.alloc.len();
        proof {
            lemma_masked_sum_entry(al0, every_row(n as int), t as int, r as int, n as int);
            assert(self.avail@[r as int] + col_sum(al0, r as int) == self.capacity@[r as int]);
        }
        let a = self.alloc[t][r] - 1;
        self.alloc[t][r] = a;
        let v = self.avail[r] + 1;
        self.avail.set(r, v);
        proof {
            assert(self.allocation() =~~= set_entry(al0, t as int, r as int, al0[t as int][r as int] - 1));
            assert(self.needs() =~~= old(self).needs());
            self.lemma_conserved_after_change(al0, old(self).available(), t as int, r as int);
        }
        true
    }

    /// Conservation survives moving units of resource `r` between the free count
    /// and the row of task `t`.
    proof fn lemma_conserved_after_change(
        &self,
        al0: Seq<Seq<usize>>,
        av0: Seq<usize>,
        t: int,
        r: int,
    )
        requires
            0 <= t < al0.len(),
            0 <= r < av0.len(),
            self.available().len() == av0.len(),
            self.allocation().len() == al0.len(),
            forall|i: int| 0 <= i < al0.len() && i != t ==> self.allocation()[i] == al0[i],
            forall|j: int| 0 <= j < av0.len() && j != r ==> self.allocation()[t][j] == al0[t][j],
            forall|j: int| 0 <= j < av0.len() && j != r ==> self.available()[j] == av0[j],
            self.available()[r] + self.allocation()[t][r] == av0[r] + al0[t][r],
            forall|j: int|
                0 <= j < av0.len() ==> av0[j] + #[trigger] col_sum(al0, j) == self.capacities()[j],
        ensures
            self.conserved(),
    {
        let n = al0.len() as int;
        assert forall|j: int| 0 <= j < self.resource_count() implies self.available()[j]
            + #[trigger] col_sum(self.allocation(), j) == self.capacities()[j] by {
            assert(av0[j] + col_sum(al0, j) == self.capacities()[j]);
            lemma_masked_sum_change(al0, self.allocation(), every_row(n), t, j, n);
        }
    }

    /// Empties every row: `task_count` tasks holding and needing nothing, every unit free.
    pub fn reset(&mut self, task_count: usize)
        requires
            old(self).wf(),
        ensures
            final(self).wf(),
            final(self).available() == old(self).capacities(),
            final(self).capacities() == old(self).capacities(),
            final(self).allocation() == zeros(task_count as int, old(self).resource_count()),
            final(self).needs() == zeros(task_count as int, old(self).resource_count()),
            final(self).detecting() == old(self).detecting(),
    {
        let m = self.capacity.len();
        let mut avail: Vec<usize> = Vec::new();
        let mut j: usize = 0;
        while j < m
            invariant
                m == self.capacity.len(),
                j <= m,
                avail@ == self.capacity@.subrange(0, j as int),
            decreases m - j,
        {
            avail.push(self.capacity[j]);
            j = j + 1;
            proof {
                assert(avail@ =~= self.capacity@.subrange(0, j as int));
            }
        }
        let mut alloc: Vec<Vec<usize>> = Vec::new();
        let mut need: Vec<Vec<usize>> = Vec::new();
        let mut i: usize = 0;
        while i < task_count
            invariant
                i <= task_count,
                matrix(alloc@) == zeros(i as int, m as int),
                matrix(need@) == zeros(i as int, m as int),
            decreases task_count - i,
        {
            let ra = zero_row(m);
            let rn = zero_row(m);
            let ghost pa = alloc@;
            let ghost pn = need@;
            alloc.push(ra);
            need.push(rn);
            i = i + 1;
            proof {
                assert(alloc@ == pa.push(ra));
                assert(matrix(pa).len() == pa.len());
                assert(matrix(alloc@).len() == alloc@.len());
                assert(matrix(pn).len() == pn.len());
                assert(matrix(need@).len() == need@.len());
                assert(need@ == pn.push(rn));
                assert forall|k: int| 0 <= k < i implies #[trigger] matrix(alloc@)[k] == zeros(
                    i as int,
                    m as int,
                )[k] by {
                    assert(matrix(alloc@)[k] == alloc@[k]@);
                    if k < i - 1 {
                        assert(alloc@[k] == pa[k]);
                        assert(matrix(pa)[k] == pa[k]@);
                        assert(matrix(pa)[k] == zeros(i - 1, m as int)[k]);
                    } else {
                        assert(alloc@[k] == ra);
                    }
                }
                assert forall|k: int| 0 <= k < i implies #[trigger] matrix(need@)[k] == zeros(
                    i as int,
                    m as int,
                )[k] by {
                    assert(matrix(need@)[k] == need@[k]@);
                    if k < i - 1 {
                        assert(need@[k] == pn[k]);
                        assert(matrix(pn)[k] == pn[k]@);
                        assert(matrix(pn)[k] == zeros(i - 1, m as int)[k]);
                    } else {
                        assert(need@[k] == rn);
                    }
                }
                assert(matrix(alloc@) =~= zeros(i as int, m as int));
                assert(matrix(need@) =~= zeros(i as int, m as int));
            }
        }
        self.avail = avail;
        self.alloc = alloc;
        self.need = need;
        proof {
            assert(self.avail@ =~= self.capacity@);
            assert forall|r: int| 0 <= r < m implies self.available()[r] + #[trigger] col_sum(
                self.allocation(),
                r,
            ) == self.capacities()[r] by {
                lemma_masked_sum_zero(self.allocation(), every_row(task_count as int), r, task_count as int);
            }
        }
    }

    /// Adds zero rows until task handle `t` is covered.
    fn grow_tasks(&mut self, t: usize)
        requires
            old(self).wf(),
            t < usize::MAX,
        ensures
            final(self).wf(),
            final(self).allocation() == grow_matrix(
                old(self).allocation(),
                grown_len(old(self).task_count(), t as int),
                old(self).resource_count(),
            ),
            final(self).needs() == grow_matrix(
                old(self).needs(),
                grown_len(old(self).task_count(), t as int),
                old(self).resource_count(),
            ),
            final(self).capacities() == old(self).capacities(),
            final(self).available() == old(self).available(),
            final(self).detecting() == old(self).detecting(),
    {
        let ghost al0 = self.allocation();
        let ghost ne0 = self.needs();
        let ghost n0 = self.task_count();
        let ghost m = self.resource_count();
        proof {
            lemma_grow_id(al0, m);
            lemma_grow_id(ne0, m);
        }
        while self.alloc.len() <= t
            invariant
                self.wf(),
                n0 <= self.task_count() <= grown_len(n0, t as int),
                t < usize::MAX,
                al0.len() == n0,
                ne0.len() == n0,
                self.resource_count() == m,
                self.allocation() == grow_matrix(al0, self.task_count(), m),
                self.needs() == grow_matrix(ne0, self.task_count(), m),
                self.capacities() == old(self).capacities(),
                self.available() == old(self).available(),
                self.detecting() == old(self).detecting(),
            decreases t + 1 - self.alloc.len(),
        {
            let ghost k = self.task_count();
            proof {
                assert(self.alloc.len() == self.task_count());
            }
            self.register_task();
            proof {
                lemma_grow_push_row(al0, k, m);
                lemma_grow_push_row(ne0, k, m);
            }
        }
    }

    /// Adds resources of no units until resource handle `r` is covered.
    fn grow_resources(&mut self, r: usize)
        requires
            old(self).wf(),
            r < usize::MAX,
        ensures
            final(self).wf(),
            final(self).allocation() == grow_matrix(
                old(self).allocation(),
                old(self).task_count(),
                grown_len(old(self).resource_count(), r as int),
            ),
            final(self).needs() == grow_matrix(
                old(self).needs(),
                old(self).task_count(),
                grown_len(old(self).resource_count(), r as int),
            ),
            final(self).capacities() == grow_vec(
                old(self).capacities(),
                grown_len(old(self).resource_count(), r as int),
            ),
            final(self).available() == grow_vec(
                old(self).available(),
                grown_len(old(self).resource_count(), r as int),
            ),
            final(self).detecting() == old(self).detecting(),
    {
        let ghost al0 = self.allocation();
        let ghost ne0 = self.needs();
        let ghost av0 = self.available();
        let ghost cp0 = self.capacities();
        let ghost n = self.task_count();
        let ghost m0 = self.resource_count();
        proof {
            lemma_grow_id(al0, m0);
            lemma_grow_id(ne0, m0);
            lemma_grow_vec_id(av0);
            lemma_grow_vec_id(cp0);
        }
        while self.avail.len() <= r
            invariant
                self.wf(),
                m0 <= self.resource_count() <= grown_len(m0, r as int),
                r < usize::MAX,
                al0.len() == n,
                ne0.len() == n,
                av0.len() == m0,
                cp0.len() == m0,
                forall|i: int| 0 <= i < n ==> (#[trigger] al0[i]).len() == m0,
                forall|i: int| 0 <= i < n ==> (#[trigger] ne0[i]).len() == m0,
                self.task_count() == n,
                self.allocation() == grow_matrix(al0, n, self.resource_count()),
                self.needs() == grow_matrix(ne0, n, self.resource_count()),
                self.capacities() == grow_vec(cp0, self.resource_count()),
                self.available() == grow_vec(av0, self.resource_count()),
                self.detecting() == old(self).detecting(),
            decreases r + 1 - self.avail.len(),
        {
            let ghost k = self.resource_count();
            proof {
                assert(self.avail.len() == self.resource_count());
            }
            self.register_resource(0);
            proof {
                lemma_grow_grow(al0, n, n, k, k + 1);
                lemma_grow_grow(ne0, n, n, k, k + 1);
                lemma_grow_vec_push(av0, k);
                lemma_grow_vec_push(cp0, k);
            }
        }
    }

    /// Adds a resource of `capacity` units, all free, held and needed by nobody.
    pub fn register_resource(&mut self, capacity: usize) -> (h: usize)
        requires
            old(self).wf(),
            old(self).resource_count() < usize::MAX,
        ensures
            final(self).wf(),
            h == old(self).resource_count(),
            resource_added(*old(self), capacity, *final(self)),
    {
        let ghost al0 = self.allocation();
        let ghost ne0 = self.needs();
        let h = self.avail.len();
        let n = self.alloc.len();
        let mut i: usize = 0;
        while i < n
            invariant
                n == self.alloc.len(),
                n == self.need.len(),
                i <= n,
                self.avail@ == old(self).avail@,
                self.capacity@ == old(self).capacity@,
                self.enabled == old(self).enabled,
                self.avail.len() == h,
                al0.len() == n,
                ne0.len() == n,
                forall|k: int| 0 <= k < n ==> (#[trigger] al0[k]).len() == h,
                forall|k: int| 0 <= k < n ==> (#[trigger] ne0[k]).len() == h,
                forall|k: int| 0 <= k < i ==> self.alloc@[k]@ == #[trigger] al0[k].push(0),
                forall|k: int| 0 <= k < i ==> self.need@[k]@ == #[trigger] ne0[k].push(0),
                forall|k: int| i <= k < n ==> self.alloc@[k]@ == #[trigger] al0[k],
                forall|k: int| i <= k < n ==> self.need@[k]@ == #[trigger] ne0[k],
            decreases n - i,
        {
            self.alloc[i].push(0);
            self.need[i].push(0);
            i = i + 1;
        }
        self.capacity.push(capacity);
        self.avail.push(capacity);
        proof {
            assert forall|k: int| 0 <= k < n implies #[trigger] self.allocation()[k]
                == grow_matrix(al0, n as int, h + 1)[k] by {
                assert(self.alloc@[k]@ == al0[k].push(0));
                assert(al0[k].len() == h);
                assert(self.allocation()[k] =~= grow_matrix(al0, n as int, h + 1)[k]);
            }
            assert forall|k: int| 0 <= k < n implies #[trigger] self.needs()[k]
                == grow_matrix(ne0, n as int, h + 1)[k] by {
                assert(self.need@[k]@ == ne0[k].push(0));
                assert(ne0[k].len() == h);
                assert(self.needs()[k] =~= grow_matrix(ne0, n as int, h + 1)[k]);
            }
            assert(self.allocation() =~= grow_matrix(al0, n as int, h + 1));
            assert(self.needs() =~= grow_matrix(ne0, n as int, h + 1));
            assert forall|r: int| 0 <= r < h + 1 implies self.available()[r] + #[trigger] col_sum(
                self.allocation(),
                r,
            ) == self.capacities()[r] by {
                assert(self.capacities().len() == h + 1);
                if r < h {
                    assert(self.available()[r] == old(self).available()[r]);
                    assert(self.capacities()[r] == old(self).capacities()[r]);
                    lemma_masked_sum_same(
                        al0, every_row(n as int),
                        self.allocation(), every_row(n as int), r, n as int);
                    assert(old(self).available()[r] + col_sum(al0, r) == old(self).capacities()[r]);
                } else {
                    lemma_masked_sum_zero(self.allocation(), every_row(n as int), r, n as int);
                }
            }
        }
        h
    }

    /// Adds a task that holds and needs nothing.
    pub fn register_task(&mut self) -> (h: usize)
        requires
            old(self).wf(),
            old(self).task_count() < usize::MAX,
        ensures
            final(self).wf(),
            h == old(self).task_count(),
            final(self).allocation() == old(self).allocation().push(
                Seq::new(old(self).resource_count() as nat, |j: int| 0usize),
            ),
            final(self).needs() == old(self).needs().push(
                Seq::new(old(self).resource_count() as nat, |j: int| 0usize),
            ),
            final(self).capacities() == old(self).capacities(),
            final(self).available() == old(self).available(),
            final(self).detecting() == old(self).detecting(),
    {
        let ghost al0 = self.allocation();
        let h = self.alloc.len();
        let m = self.avail.len();
        let row_a = zero_row(m);
        let row_n = zero_row(m);
        self.alloc.push(row_a);
        self.need.push(row_n);
        proof {
            assert(self.allocation() =~= al0.push(Seq::new(m as nat, |j: int| 0usize)));
            assert(self.needs() =~= old(self).needs().push(Seq::new(m as nat, |j: int| 0usize)));
            assert forall|r: int| 0 <= r < m implies self.available()[r] + #[trigger] col_sum(
                self.allocation(),
                r,
            ) == self.capacities()[r] by {
                lemma_masked_sum_same(
                    al0, every_row(h as int),
                    self.allocation(), every_row(h + 1), r, h as int);
                assert(old(self).available()[r] + col_sum(al0, r) == old(self).capacities()[r]);
            }
        }
        h
    }
}

/// Growing a vector to its own length leaves it as it is.
proof fn lemma_grow_vec_id(v: Seq<usize>)
    ensures
        grow_vec(v, v.len() as int) == v,
{
    assert(grow_vec(v, v.len() as int) =~= v);
}

/// Growing a matrix to its own size leaves it as it is.
proof fn lemma_grow_id(m: Seq<Seq<usize>>, cols: int)
    requires
        forall|i: int| 0 <= i < m.len() ==> (#[trigger] m[i]).len() == cols,
    ensures
        grow_matrix(m, m.len() as int, cols) == m,
{
    assert forall|i: int| 0 <= i < m.len() implies #[trigger] grow_matrix(
        m,
        m.len() as int,
        cols,
    )[i] == m[i] by {
        assert(grow_matrix(m, m.len() as int, cols)[i] =~= m[i]);
    }
    assert(grow_matrix(m, m.len() as int, cols) =~= m);
}

/// Growing twice is growing once to the larger size.
proof fn lemma_grow_grow(m: Seq<Seq<usize>>, r1: int, r2: int, c1: int, c2: int)
    requires
        m.len() <= r1 <= r2,
        0 <= c1 <= c2,
        forall|i: int| 0 <= i < m.len() ==> (#[trigger] m[i]).len() <= c1,
    ensures
        grow_matrix(grow_matrix(m, r1, c1), r2, c2) == grow_matrix(m, r2, c2),
{
    let g = grow_matrix(m, r1, c1);
    assert forall|i: int| 0 <= i < r2 implies #[trigger] grow_matrix(g, r2, c2)[i] == grow_matrix(
        m,
        r2,
        c2,
    )[i] by {
        assert(grow_matrix(g, r2, c2)[i] =~= grow_matrix(m, r2, c2)[i]);
    }
    assert(grow_matrix(g, r2, c2) =~= grow_matrix(m, r2, c2));
}

/// Adding a zero row to a grown matrix grows it by one row.
proof fn lemma_grow_push_row(m: Seq<Seq<usize>>, rows: int, cols: int)
    requires
        m.len() <= rows,
        0 <= cols,
    ensures
        grow_matrix(m, rows, cols).push(Seq::new(cols as nat, |j: int| 0usize)) == grow_matrix(
            m,
            rows + 1,
            cols,
        ),
{
    let a = grow_matrix(m, rows, cols).push(Seq::new(cols as nat, |j: int| 0usize));
    let b = grow_matrix(m, rows + 1, cols);
    assert forall|i: int| 0 <= i < rows + 1 implies #[trigger] a[i] == b[i] by {
        assert(a[i] =~= b[i]);
    }
    assert(a =~= b);
}

/// Adding a zero entry to a grown vector grows it by one entry.
proof fn lemma_grow_vec_push(v: Seq<usize>, cols: int)
    requires
        v.len() <= cols,
    ensures
        grow_vec(v, cols).push(0) == grow_vec(v, cols + 1),
{
    assert(grow_vec(v, cols).push(0) =~= grow_vec(v, cols + 1));
}

/// A row of `m` zeros.
fn zero_row(m: usize) -> (v: Vec<usize>)
    ensures
        v@ == Seq::new(m as nat, |j: int| 0usize),
{
    let mut v: Vec<usize> = Vec::new();
    let mut j: usize = 0;
    while j < m
        invariant
            j <= m,
            v@ == Seq::new(j as nat, |k: int| 0usize),
        decreases m - j,
    {
        v.push(0);
        j = j + 1;
        proof {
            assert(v@ =~= Seq::new(j as nat, |k: int| 0usize));
        }
    }
    v
}

} // verus!
