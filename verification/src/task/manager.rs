//! Implementation of [`TaskManager`]
use vstd::prelude::*;
use std::collections::VecDeque;
use crate::config::USER_SPACE_END;
use crate::mm::frame::PhysMem;
use crate::mm::memory_set::{map_side, mapped_fresh, unmap_side, unmapped_range};
use crate::mm::page_table::mapping;
use crate::task::task::{ceil_page, mmap_flags, mmap_ok, prot_rights, TaskControlBlock};

verus! {

/// The strides of the tasks in a queue.
pub open spec fn strides(q: Seq<TaskControlBlock>) -> Seq<usize> {
    q.map_values(|t: TaskControlBlock| t.stride)
}

/// The index of the first task with the least stride among the first `n`.
pub open spec fn min_index(q: Seq<TaskControlBlock>, n: int) -> int
    decreases n,
{
    if n <= 1 {
        0
    } else {
        let m = min_index(q, n - 1);
        if q[n - 1].stride < q[m].stride {
            n - 1
        } else {
            m
        }
    }
}

/// The least stride of a non-empty queue.
pub open spec fn min_stride(q: Seq<TaskControlBlock>) -> usize {
    q[min_index(q, q.len() as int)].stride
}

/// The queue after every stride is lowered by the least one.
pub open spec fn normalized(q: Seq<TaskControlBlock>) -> Seq<TaskControlBlock> {
    q.map_values(|t: TaskControlBlock| with_stride(t, (t.stride - min_stride(q)) as usize))
}

/// The first task with the least stride among the first `n` has a stride no
/// larger than any of them, and smaller than those before it.
pub proof fn lemma_min_index(q: Seq<TaskControlBlock>, n: int)
    requires
        0 < n <= q.len(),
    ensures
        0 <= min_index(q, n) < n,
        forall|j: int| 0 <= j < n ==> q[min_index(q, n)].stride <= #[trigger] q[j].stride,
        forall|j: int| 0 <= j < min_index(q, n) ==> q[min_index(q, n)].stride < #[trigger] q[j].stride,
    decreases n,
{
    if n > 1 {
        lemma_min_index(q, n - 1);
    }
}

/// Normalizing lowers every stride by the least one: the least becomes
/// zero, the difference between any two strides stays, and so the task that
/// is picked next stays the same.
pub proof fn lemma_normalized_order(q: Seq<TaskControlBlock>)
    requires
        q.len() > 0,
    ensures
        normalized(q).len() == q.len(),
        normalized(q)[min_index(q, q.len() as int)].stride == 0,
        forall|i: int, j: int|
            0 <= i < q.len() && 0 <= j < q.len() ==> #[trigger] normalized(q)[i].stride - #[trigger] normalized(q)[j].stride
                == q[i].stride - q[j].stride,
        min_index(normalized(q), q.len() as int) == min_index(q, q.len() as int),
{
    lemma_min_index(q, q.len() as int);
    let nq = normalized(q);
    assert forall|i: int| 0 <= i < q.len() implies #[trigger] nq[i].stride == q[i].stride - min_stride(q) by {
        assert(min_stride(q) <= q[i].stride);
    }
    lemma_same_min_index(q, nq, q.len() as int);
}

/// Two queues whose strides compare alike pick the same task.
proof fn lemma_same_min_index(q: Seq<TaskControlBlock>, p: Seq<TaskControlBlock>, n: int)
    requires
        0 < n <= q.len(),
        p.len() == q.len(),
        forall|i: int, j: int| 0 <= i < q.len() && 0 <= j < q.len() ==> (#[trigger] p[i].stride < #[trigger] p[j].stride)
            == (q[i].stride < q[j].stride),
    ensures
        min_index(p, n) == min_index(q, n),
    decreases n,
{
    if n > 1 {
        lemma_same_min_index(q, p, n - 1);
        lemma_min_index(q, n - 1);
        let m = min_index(q, n - 1);
        assert((p[n - 1].stride < p[m].stride) == (q[n - 1].stride < q[m].stride));
    }
}

/// A task with its stride changed.
pub open spec fn with_stride(t: TaskControlBlock, s: usize) -> TaskControlBlock {
    TaskControlBlock { stride: s, ..t }
}

/// The tasks ready to run, front first.
pub struct TaskManager {
    ready_queue: VecDeque<TaskControlBlock>,
}

impl TaskManager {
    /// The tasks in the ready queue, front first.
    pub closed spec fn view(&self) -> Seq<TaskControlBlock> {
        self.ready_queue@
    }

    ///Creat an empty TaskManager
    pub fn new() -> (r: TaskManager)
        ensures
            r@ == Seq::<TaskControlBlock>::empty(),
    {
        TaskManager { ready_queue: VecDeque::new() }
    }

    /// Add process back to ready queue
    pub fn add(&mut self, task: TaskControlBlock)
        ensures
            final(self)@ == old(self)@.push(task),
    {
        self.ready_queue.push_back(task);
    }

    /// Take a process out of the ready queue
    pub fn fetch(&mut self) -> (r: Option<TaskControlBlock>)
        ensures
            old(self)@.len() == 0 ==> r is None && final(self)@ == old(self)@,
            old(self)@.len() > 0 ==> r == Some(old(self)@[0]) && final(self)@ == old(self)@.drop_first(),
    {
        let r = self.ready_queue.pop_front();
        proof {
            if old(self)@.len() > 0 {
                assert(self@ =~= old(self)@.drop_first());
            }
        }
        r
    }

    /// The number of tasks in the ready queue.
    pub fn len(&self) -> (r: usize)
        ensures
            r == self@.len(),
    {
        self.ready_queue.len()
    }

    /// 选择 stride 最小的任务进行调度
    pub fn fetch_stride(&mut self) -> (r: Option<TaskControlBlock>)
        ensures
            old(self)@.len() == 0 ==> r is None && final(self)@ == old(self)@,
            old(self)@.len() > 0 ==> {
                let i = min_index(old(self)@, old(self)@.len() as int);
                let t = old(self)@[i];
                let rest = old(self)@.remove(i);
                &&& forall|j: int| 0 <= j < old(self)@.len() ==> t.stride <= #[trigger] old(self)@[j].stride
                &&& forall|j: int| 0 <= j < i ==> t.stride < #[trigger] old(self)@[j].stride
                &&& t.stride + t.pass <= usize::MAX ==> {
                    &&& r == Some(with_stride(t, (t.stride + t.pass) as usize))
                    &&& final(self)@ == rest
                }
                &&& t.stride + t.pass > usize::MAX ==> {
                    &&& r == Some(with_stride(t, t.pass))
                    &&& final(self)@ == if rest.len() == 0 { rest } else { normalized(rest) }
                }
            },
    {
        if self.ready_queue.len() == 0 {
            None
        } else {
            let mut min_stride = usize::MAX;
            let mut min_idx: usize = 0;
            let n = self.ready_queue.len();
            let mut i: usize = 0;
            while i < n
                invariant
                    i <= n,
                    n == self@.len(),
                    self@ == old(self)@,
                    n > 0,
                    min_idx == min_index(self@, if i == 0 { 1 } else { i as int }),
                    i > 0 ==> min_stride == self@[min_idx as int].stride,
                    i == 0 ==> min_stride == usize::MAX,
                    i > 0 ==> forall|j: int| 0 <= j < i ==> self@[j].stride == usize::MAX || min_stride < usize::MAX,
                decreases n - i,
            {
                let s = self.ready_queue[i].stride;
                proof {
                    if i > 0 { lemma_min_index(self@, i as int); }
                }
                if s < min_stride {
                    min_stride = s;
                    min_idx = i;
                }
                proof {
                    if i > 0 {
                        lemma_min_index(self@, i as int);
                        if !(s < min_stride) {
                            assert(min_index(self@, i + 1) == min_idx);
                        }
                    }
                }
                i = i + 1;
            }
            proof { lemma_min_index(self@, n as int); }
            let mut task = self.ready_queue.remove(min_idx).unwrap();
            let pass = task.pass;
            match task.stride.checked_add(pass) {
                Some(new_stride) => {
                    task.stride = new_stride;
                },
                None => {
                    task.stride = pass;
                    self.normalize_strides();
                },
            }
            Some(task)
        }
    }

    /// 归一化所有任务的 stride 值，避免溢出
    fn normalize_strides(&mut self)
        ensures
            final(self)@ == if old(self)@.len() == 0 { old(self)@ } else { normalized(old(self)@) },
    {
        if self.ready_queue.len() == 0 {
            return;
        }
        let n = self.ready_queue.len();
        let mut min_stride = self.ready_queue[0].stride;
        let mut i: usize = 1;
        while i < n
            invariant
                1 <= i <= n,
                n == self@.len(),
                self@ == old(self)@,
                min_stride == self@[min_index(self@, i as int)].stride,
            decreases n - i,
        {
            if self.ready_queue[i].stride < min_stride {
                min_stride = self.ready_queue[i].stride;
            }
            i = i + 1;
        }
        proof { lemma_min_index(old(self)@, n as int); }
        let mut k: usize = 0;
        while k < n
            invariant
                k <= n,
                n == old(self)@.len(),
                min_stride == old(self)@[min_index(old(self)@, n as int)].stride,
                forall|j: int| 0 <= j < n ==> min_stride <= #[trigger] old(self)@[j].stride,
                self@ == old(self)@.skip(k as int) + normalized(old(self)@).take(k as int),
            decreases n - k,
        {
            let mut task = self.ready_queue.pop_front().unwrap();
            proof { assert(task == old(self)@[k as int]); }
            task.stride = task.stride - min_stride;
            self.ready_queue.push_back(task);
            proof {
                assert(self@ =~= old(self)@.skip(k + 1) + normalized(old(self)@).take(k + 1));
            }
            k = k + 1;
        }
        proof {
            assert(self@ =~= normalized(old(self)@));
        }
    }


    /// 在当前任务的页表中映射一段虚拟地址区域; `-1` with no current task, a
    /// range that leaves user space, or an unknown protection bit.
    pub fn sys_mmap_tcb(
        &mut self,
        current: &mut Option<TaskControlBlock>,
        mem: &mut PhysMem,
        start: usize,
        len: usize,
        prot: usize,
    ) -> (r: isize)
        requires
            (*old(current)) is Some ==> (*old(current))->0.memory_set.wf(old(mem)),
        ensures
            final(self)@ == old(self)@,
            (*old(current)) is None || start + len > USER_SPACE_END || prot > 7 ==> r == -1 && *final(mem) == *old(mem)
                && *final(current) == *old(current),
            (*old(current)) is Some && start + len <= USER_SPACE_END && prot <= 7 ==> {
                let t0 = (*old(current))->0;
                let root = t0.memory_set.root();
                &&& (*final(current)) is Some
                &&& (*final(current))->0.memory_set.wf(final(mem))
                &&& (*final(current))->0.memory_set.root() == root
                &&& (*final(current))->0.fd_table@ == t0.fd_table@
                &&& (*final(current))->0.heap_bottom == t0.heap_bottom
                &&& (*final(current))->0.program_brk == t0.program_brk
                &&& forall|p: int| #[trigger] old(mem).tables().contains_key(p) ==> final(mem).tables().contains_key(p)
                    && final(mem).tables()[p] == old(mem).tables()[p]
                &&& (r == 0 || r == -1)
                &&& r == 0 <==> mmap_ok(old(mem), root, start, len)
                &&& r == -1 ==> *final(mem) == *old(mem)
                &&& r == 0 ==> mapped_fresh(old(mem), final(mem), root, (start / 4096) as u64,
                    ceil_page(start + len) as u64, mmap_flags(prot))
                &&& r == 0 ==> forall|v: u64|
                    #![trigger mapping(final(mem)@, root).contains_key(v)]
                    #![trigger mapping(final(mem)@, root)[v]]
                    start / 4096 <= v < ceil_page(start + len) ==> {
                        &&& mapping(final(mem)@, root).contains_key(v)
                        &&& prot_rights(mapping(final(mem)@, root)[v], prot)
                    }
                &&& map_side(old(mem), final(mem), root)
            },
    {
        if prot > 7 || !in_user_space(start, len) {
            return -1;
        }
        if let Some(task) = current {
            task.sys_mmap_tcb(mem, start, len, prot)
        } else {
            -1
        }
    }

    /// 在当前任务的页表中取消映射一段虚拟地址区域; `-1` with no current task
    /// or a range that leaves user space.
    pub fn sys_munmap_tcb(
        &mut self,
        current: &mut Option<TaskControlBlock>,
        mem: &mut PhysMem,
        start: usize,
        len: usize,
    ) -> (r: isize)
        requires
            (*old(current)) is Some ==> (*old(current))->0.memory_set.wf(old(mem)),
        ensures
            final(self)@ == old(self)@,
            (*old(current)) is None || start + len > USER_SPACE_END ==> r == -1 && *final(mem) == *old(mem)
                && *final(current) == *old(current),
            (*old(current)) is Some && start + len <= USER_SPACE_END ==> {
                let t0 = (*old(current))->0;
                let root = t0.memory_set.root();
                &&& (*final(current)) is Some
                &&& (*final(current))->0.memory_set.wf(final(mem))
                &&& (*final(current))->0.memory_set.root() == root
                &&& (*final(current))->0.fd_table@ == t0.fd_table@
                &&& (*final(current))->0.heap_bottom == t0.heap_bottom
                &&& (*final(current))->0.program_brk == t0.program_brk
                &&& final(mem).tables() == old(mem).tables()
                &&& (r == 0 || r == -1)
                &&& r == 0 <==> (forall|v: u64| start / 4096 <= v < ceil_page(start + len) ==>
                    #[trigger] t0.memory_set.view_in(old(mem)).contains_key(v))
                &&& r == -1 ==> *final(mem) == *old(mem)
                &&& r == 0 ==> unmapped_range(t0.memory_set.view_in(old(mem)),
                    (*final(current))->0.memory_set.view_in(final(mem)), (start / 4096) as u64, ceil_page(start + len) as u64)
                &&& r == 0 ==> unmap_side(old(mem), final(mem), root, (start / 4096) as u64, ceil_page(start + len) as u64)
            },
    {
        if !in_user_space(start, len) {
            return -1;
        }
        if let Some(task) = current {
            task.sys_munmap_tcb(mem, start, len)
        } else {
            -1
        }
    }

}

/// Whether `[start, start + len)` lies in user space.
fn in_user_space(start: usize, len: usize) -> (r: bool)
    ensures
        r == (start + len <= USER_SPACE_END),
{
    match (start as u64).checked_add(len as u64) {
        Some(end) => end <= USER_SPACE_END,
        None => false,
    }
}

} // verus!
