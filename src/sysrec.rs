//! Per-process counts of system calls.
use vstd::prelude::*;
use crate::info::{count_for, syscall_table, MAX_SYSCALL_NUM};

verus! {

/// No two pairs name the same call number.
pub open spec fn ids_unique(s: Seq<(usize, u32)>) -> bool {
    forall|i: int, j: int| 0 <= i < j < s.len() ==> #[trigger] s[i].0 != #[trigger] s[j].0
}

proof fn lemma_count_for_update(s: Seq<(usize, u32)>, i: int, c: u32, k: int, n: int)
    requires
        ids_unique(s),
        0 <= i < s.len(),
        n <= s.len(),
    ensures
        count_for(s.update(i, (s[i].0, c)), k, n) == if k == s[i].0 && i < n {
            c
        } else {
            count_for(s, k, n)
        },
    decreases n,
{
    if n > 0 {
        lemma_count_for_update(s, i, c, k, n - 1);
        if k == s[i].0 && i < n - 1 {
            assert(s[n - 1].0 != s[i].0);
        }
    }
}

proof fn lemma_count_for_found(s: Seq<(usize, u32)>, i: int, n: int)
    requires
        ids_unique(s),
        0 <= i < n <= s.len(),
    ensures
        count_for(s, s[i].0 as int, n) == s[i].1,
    decreases n,
{
    if n - 1 > i {
        assert(s[n - 1].0 != s[i].0);
        lemma_count_for_found(s, i, n - 1);
    }
}

proof fn lemma_count_for_absent(s: Seq<(usize, u32)>, k: int, n: int)
    requires
        0 <= n <= s.len(),
        forall|j: int| 0 <= j < n ==> #[trigger] s[j].0 != k,
    ensures
        count_for(s, k, n) == 0,
    decreases n,
{
    if n > 0 {
        lemma_count_for_absent(s, k, n - 1);
    }
}

proof fn lemma_count_for_push(s: Seq<(usize, u32)>, p: (usize, u32), k: int)
    ensures
        count_for(s.push(p), k, s.len() + 1int) == if k == p.0 {
            p.1
        } else {
            count_for(s, k, s.len() as int)
        },
{
    lemma_count_for_same(s, s.push(p), k, s.len() as int);
}

proof fn lemma_count_for_same(a: Seq<(usize, u32)>, b: Seq<(usize, u32)>, k: int, n: int)
    requires
        forall|j: int| 0 <= j < n ==> a[j] == b[j],
    ensures
        count_for(a, k, n) == count_for(b, k, n),
    decreases n,
{
    if n > 0 {
        lemma_count_for_same(a, b, k, n - 1);
    }
}

/// Call counts of one process, one pair per call number.
pub struct SyscallTimes {
    syscall_times: Vec<(usize, u32)>,
}

impl SyscallTimes {
    /// How often call `k` was made.
    pub closed spec fn count(&self, k: int) -> u32 {
        count_for(self.syscall_times@, k, self.syscall_times@.len() as int)
    }

    pub closed spec fn wf(&self) -> bool {
        ids_unique(self.syscall_times@)
    }

    /// A table indexed by call number of how often each call was made.
    pub fn all_syscall_times(&self) -> (table: [u32; MAX_SYSCALL_NUM])
        ensures
            forall|k: int| 0 <= k < MAX_SYSCALL_NUM ==> #[trigger] table@[k] == self.count(k),
    {
        syscall_table(&self.syscall_times)
    }

    /// Counts one more call `syscall_id`.
    pub fn record_syscall(&mut self, syscall_id: usize)
        requires
            old(self).wf(),
            old(self).count(syscall_id as int) < u32::MAX,
        ensures
            final(self).wf(),
            final(self).count(syscall_id as int) == old(self).count(syscall_id as int) + 1,
            forall|k: int| k != syscall_id ==> #[trigger] final(self).count(k) == old(self).count(k),
    {
        let n = self.syscall_times.len();
        let mut i: usize = 0;
        while i < n
            invariant
                n == self.syscall_times.len(),
                *self == *old(self),
                old(self).wf(),
                old(self).count(syscall_id as int) < u32::MAX,
                i <= n,
                forall|j: int| 0 <= j < i ==> #[trigger] self.syscall_times@[j].0 != syscall_id,
            decreases n - i,
        {
            if self.syscall_times[i].0 == syscall_id {
                let ghost s = self.syscall_times@;
                proof {
                    lemma_count_for_found(s, i as int, n as int);
                }
                let c = self.syscall_times[i].1 + 1;
                self.syscall_times.set(i, (syscall_id, c));
                proof {
                    assert forall|k: int| #[trigger] count_for(self.syscall_times@, k, n as int)
                        == if k == syscall_id { c } else { count_for(s, k, n as int) } by {
                        lemma_count_for_update(s, i as int, c, k, n as int);
                    }
                    assert(self.syscall_times@ == s.update(i as int, (s[i as int].0, c)));
                    assert(ids_unique(self.syscall_times@));
                }
                return;
            }
            i = i + 1;
        }
        let ghost s = self.syscall_times@;
        proof {
            lemma_count_for_absent(s, syscall_id as int, n as int);
        }
        self.syscall_times.push((syscall_id, 1));
        proof {
            assert forall|k: int| #[trigger] count_for(self.syscall_times@, k, n + 1int) == if k
                == syscall_id {
                1u32
            } else {
                count_for(s, k, n as int)
            } by {
                lemma_count_for_push(s, (syscall_id, 1u32), k);
            }
        }
    }
}

/// Call counts of every process that has made a call, keyed by process id.
pub struct SyscallRec {
    process_syscalls: Vec<(usize, SyscallTimes)>,
}

impl SyscallRec {
    /// Index of the entry for `pid` in `s`, if any.
    pub open spec fn entry_of(s: Seq<(usize, SyscallTimes)>, pid: usize, i: int) -> bool {
        0 <= i < s.len() && s[i].0 == pid
    }

    /// Whether process `pid` has made a call.
    pub closed spec fn recorded(&self, pid: usize) -> bool {
        exists|i: int| Self::entry_of(self.process_syscalls@, pid, i)
    }

    /// How often process `pid` made call `k`; zero for a process never seen.
    pub closed spec fn count(&self, pid: usize, k: int) -> u32 {
        if self.recorded(pid) {
            let i = choose|i: int| Self::entry_of(self.process_syscalls@, pid, i);
            self.process_syscalls@[i].1.count(k)
        } else {
            0
        }
    }

    pub closed spec fn wf(&self) -> bool {
        &&& forall|i: int, j: int|
            0 <= i < j < self.process_syscalls@.len() ==> #[trigger] self.process_syscalls@[i].0
                != #[trigger] self.process_syscalls@[j].0
        &&& forall|i: int|
            0 <= i < self.process_syscalls@.len() ==> (#[trigger] self.process_syscalls@[i]).1.wf()
    }

    /// No process seen yet.
    pub fn new() -> (r: Self)
        ensures
            r.wf(),
            forall|pid: usize| !#[trigger] r.recorded(pid),
    {
        SyscallRec { process_syscalls: Vec::new() }
    }

    /// Index of the entry for `pid`.
    fn find(&self, pid: usize) -> (r: Option<usize>)
        requires
            self.wf(),
        ensures
            match r {
                Some(i) => Self::entry_of(self.process_syscalls@, pid, i as int),
                None => !self.recorded(pid),
            },
    {
        let n = self.process_syscalls.len();
        let mut i: usize = 0;
        while i < n
            invariant
                n == self.process_syscalls.len(),
                i <= n,
                forall|j: int| 0 <= j < i ==> #[trigger] self.process_syscalls@[j].0 != pid,
            decreases n - i,
        {
            if self.process_syscalls[i].0 == pid {
                return Some(i);
            }
            i = i + 1;
        }
        None
    }

    /// Whether process `pid` has made a call, as a value.
    pub fn has_process(&self, pid: usize) -> (b: bool)
        requires
            self.wf(),
        ensures
            b == self.recorded(pid),
    {
        self.find(pid).is_some()
    }

    /// How often process `pid` made call `syscall_id`, as a value.
    pub fn times_of(&self, pid: usize, syscall_id: usize) -> (c: u32)
        requires
            self.wf(),
        ensures
            c == self.count(pid, syscall_id as int),
    {
        match self.find(pid) {
            Some(i) => {
                let t = &self.process_syscalls[i].1;
                let table_count = count_in(&t.syscall_times, syscall_id);
                proof {
                    let j = choose|j: int| Self::entry_of(self.process_syscalls@, pid, j);
                    assert(j == i);
                }
                table_count
            },
            None => 0,
        }
    }

    /// Counts one more call `syscall_id` by process `pid`.
    pub fn record_syscall(&mut self, pid: usize, syscall_id: usize)
        requires
            old(self).wf(),
            old(self).count(pid, syscall_id as int) < u32::MAX,
        ensures
            final(self).wf(),
            final(self).recorded(pid),
            final(self).count(pid, syscall_id as int) == old(self).count(pid, syscall_id as int) + 1,
            forall|q: usize, k: int|
                (q != pid || k != syscall_id) ==> #[trigger] final(self).count(q, k) == old(self).count(q, k),
            forall|q: usize| q != pid ==> #[trigger] final(self).recorded(q) == old(self).recorded(q),
    {
        match self.find(pid) {
            Some(i) => {
                let ghost s0 = self.process_syscalls@;
                proof {
                    let j = choose|j: int| Self::entry_of(s0, pid, j);
                    assert(j == i);
                }
                self.process_syscalls[i].1.record_syscall(syscall_id);
                proof {
                    let s = self.process_syscalls@;
                    assert(s == s0.update(i as int, s[i as int]));
                    assert forall|q: usize| #[trigger] self.recorded(q) == old(self).recorded(q) by {
                        if old(self).recorded(q) {
                            let j = choose|j: int| Self::entry_of(s0, q, j);
                            assert(Self::entry_of(s, q, j));
                        }
                        if self.recorded(q) {
                            let j = choose|j: int| Self::entry_of(s, q, j);
                            assert(Self::entry_of(s0, q, j));
                        }
                    }
                    assert forall|q: usize, k: int|
                        (q != pid || k != syscall_id) implies #[trigger] self.count(q, k) == old(self).count(q, k) by {
                        if old(self).recorded(q) {
                            let j = choose|j: int| Self::entry_of(s0, q, j);
                            let j2 = choose|j: int| Self::entry_of(s, q, j);
                            assert(Self::entry_of(s, q, j));
                            assert(j == j2);
                        }
                    }
                    let j2 = choose|j: int| Self::entry_of(s, pid, j);
                    assert(Self::entry_of(s, pid, i as int));
                    assert(j2 == i);
                }
            },
            None => {
                let ghost s0 = self.process_syscalls@;
                let mut times: Vec<(usize, u32)> = Vec::new();
                times.push((syscall_id, 1));
                let t = SyscallTimes { syscall_times: times };
                proof {
                    assert(t.count(syscall_id as int) == 1);
                    assert forall|k: int| k != syscall_id implies #[trigger] t.count(k) == 0 by {
                        assert(count_for(t.syscall_times@, k, 0) == 0);
                    }
                }
                self.process_syscalls.push((pid, t));
                proof {
                    let s = self.process_syscalls@;
                    let n = s0.len() as int;
                    assert(Self::entry_of(s, pid, n));
                    assert forall|q: usize| q != pid implies #[trigger] self.recorded(q) == old(self).recorded(q) by {
                        if old(self).recorded(q) {
                            let j = choose|j: int| Self::entry_of(s0, q, j);
                            assert(Self::entry_of(s, q, j));
                        }
                        if self.recorded(q) {
                            let j = choose|j: int| Self::entry_of(s, q, j);
                            assert(Self::entry_of(s0, q, j));
                        }
                    }
                    assert forall|q: usize, k: int|
                        (q != pid || k != syscall_id) implies #[trigger] self.count(q, k) == old(self).count(q, k) by {
                        if q != pid && old(self).recorded(q) {
                            let j = choose|j: int| Self::entry_of(s0, q, j);
                            let j2 = choose|j: int| Self::entry_of(s, q, j);
                            assert(Self::entry_of(s, q, j));
                            assert(j == j2);
                        } else if q == pid {
                            assert(Self::entry_of(s, q, n));
                            let j2 = choose|j: int| Self::entry_of(s, q, j);
                            if j2 < n {
                                assert(Self::entry_of(s0, pid, j2));
                            }
                            assert(j2 == n);
                        }
                    }
                    let j2 = choose|j: int| Self::entry_of(s, pid, j);
                    if j2 < n {
                        assert(Self::entry_of(s0, pid, j2));
                    }
                    assert(j2 == n);
                    assert forall|a: int, b: int| 0 <= a < b < s.len() implies #[trigger] s[a].0 != #[trigger] s[b].0 by {
                        if b == n {
                            assert(!Self::entry_of(s0, pid, a));
                        }
                    }
                }
            },
        }
    }

    /// A table indexed by call number of how often process `pid` made each call.
    pub fn current_syscall_times(&self, pid: usize) -> (table: [u32; MAX_SYSCALL_NUM])
        requires
            self.wf(),
            self.recorded(pid),
        ensures
            forall|k: int| 0 <= k < MAX_SYSCALL_NUM ==> #[trigger] table@[k] == self.count(pid, k),
    {
        let i = self.find(pid).unwrap();
        proof {
            let j = choose|j: int| Self::entry_of(self.process_syscalls@, pid, j);
            assert(j == i);
        }
        self.process_syscalls[i].1.all_syscall_times()
    }
}

/// The count `counts` records for call `k`.
fn count_in(counts: &Vec<(usize, u32)>, k: usize) -> (c: u32)
    ensures
        c == count_for(counts@, k as int, counts@.len() as int),
{
    let mut c: u32 = 0;
    let mut i: usize = 0;
    while i < counts.len()
        invariant
            i <= counts.len(),
            c == count_for(counts@, k as int, i as int),
        decreases counts.len() - i,
    {
        if counts[i].0 == k {
            c = counts[i].1;
        }
        i = i + 1;
    }
    c
}

} // verus!
