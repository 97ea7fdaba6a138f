//! What the stride scheduler guarantees to tasks that are put back in the
//! ready queue after each dispatch.
use crate::manager::{first_min_index, is_first_min, TaskControlBlock};
use vstd::prelude::*;

verus! {

/// The ready queue after one round: the task that a fetch dispatches is taken
/// out, charged, and added at the back again.
pub open spec fn round(queue: Seq<TaskControlBlock>) -> Seq<TaskControlBlock> {
    if queue.len() == 0 {
        queue
    } else {
        queue.remove(first_min_index(queue)).push(queue[first_min_index(queue)].charged())
    }
}

/// The ready queue after `n` rounds.
pub open spec fn rounds(queue: Seq<TaskControlBlock>, n: nat) -> Seq<TaskControlBlock>
    decreases n,
{
    if n == 0 {
        queue
    } else {
        round(rounds(queue, (n - 1) as nat))
    }
}

/// How often the task `pid` is dispatched in the first `n` rounds.
pub open spec fn dispatches(queue: Seq<TaskControlBlock>, n: nat, pid: usize) -> nat
    decreases n,
{
    if n == 0 {
        0
    } else {
        let before = rounds(queue, (n - 1) as nat);
        let earlier = dispatches(queue, (n - 1) as nat, pid);
        if before.len() > 0 && before[first_min_index(before)].pid == pid {
            earlier + 1
        } else {
            earlier
        }
    }
}

/// No two tasks of the queue have the same `pid`.
pub open spec fn distinct_pids(queue: Seq<TaskControlBlock>) -> bool {
    forall|x: int, y: int|
        0 <= x < queue.len() && 0 <= y < queue.len() && x != y ==> (#[trigger] queue[x]).pid != (
        #[trigger] queue[y]).pid
}

/// No task is ahead of another by more than its own stride.
pub open spec fn balanced(queue: Seq<TaskControlBlock>) -> bool {
    forall|x: int, y: int|
        0 <= x < queue.len() && 0 <= y < queue.len() ==> (#[trigger] queue[x]).pass <= (
        #[trigger] queue[y]).pass + queue[x].stride
}

/// Every queue that is not empty has a first task of least `pass`.
pub proof fn lemma_first_min_exists(queue: Seq<TaskControlBlock>)
    requires
        queue.len() > 0,
    ensures
        is_first_min(queue, first_min_index(queue)),
{
    let i = lemma_first_min_of_prefix(queue, queue.len() as int);
    assert(is_first_min(queue, i));
}

proof fn lemma_first_min_of_prefix(queue: Seq<TaskControlBlock>, n: int) -> (i: int)
    requires
        0 < n <= queue.len(),
    ensures
        0 <= i < n,
        forall|j: int| 0 <= j < i ==> queue[i].pass < (#[trigger] queue[j]).pass,
        forall|j: int| i <= j < n ==> queue[i].pass <= (#[trigger] queue[j]).pass,
    decreases n,
{
    if n == 1 {
        0
    } else {
        let p = lemma_first_min_of_prefix(queue, n - 1);
        if queue[n - 1].pass < queue[p].pass {
            n - 1
        } else {
            p
        }
    }
}

/// A task is dispatched at most once in a round.
pub proof fn lemma_dispatches_bounded(queue: Seq<TaskControlBlock>, n: nat, pid: usize)
    ensures
        dispatches(queue, n, pid) <= n,
    decreases n,
{
    if n > 0 {
        lemma_dispatches_bounded(queue, (n - 1) as nat, pid);
    }
}

/// Slot `slot` of `now` holds the task that stood at `k` in `start`.
spec fn holds(start: Seq<TaskControlBlock>, now: Seq<TaskControlBlock>, k: int, slot: int) -> bool {
    &&& 0 <= slot < now.len()
    &&& now[slot].pid == start[k].pid
    &&& now[slot].stride == start[k].stride
}

/// The task that stood at `k` in `start` is in `now`.
spec fn present(start: Seq<TaskControlBlock>, now: Seq<TaskControlBlock>, k: int) -> bool {
    exists|slot: int| #[trigger] holds(start, now, k, slot)
}

/// What `n` rounds keep of a queue `start` in the queue `now` that they lead
/// to, as long as no `pass` reaches the largest value of its type.
spec fn kept(
    start: Seq<TaskControlBlock>,
    now: Seq<TaskControlBlock>,
    n: nat,
    total: nat,
) -> bool {
    &&& now.len() == start.len()
    &&& distinct_pids(now)
    &&& balanced(now)
    &&& forall|m: int|
        0 <= m < now.len() ==> (#[trigger] now[m]).pass == now[m].stride * dispatches(
            start,
            n,
            now[m].pid,
        )
    &&& forall|m: int| 0 <= m < now.len() ==> (#[trigger] now[m]).stride * total <= u128::MAX
    &&& forall|k: int| 0 <= k < start.len() ==> #[trigger] present(start, now, k)
}

/// The place in the queue before a round of the task that stands at `m`
/// after it, where the task at `i` was dispatched.
spec fn origin(len: int, i: int, m: int) -> int {
    if m == len - 1 {
        i
    } else if m < i {
        m
    } else {
        m + 1
    }
}

proof fn lemma_round_keeps(start: Seq<TaskControlBlock>, n: nat, total: nat)
    requires
        kept(start, rounds(start, n), n, total),
        n < total,
    ensures
        kept(start, rounds(start, (n + 1) as nat), (n + 1) as nat, total),
{
    let now = rounds(start, n);
    let next = rounds(start, (n + 1) as nat);
    assert(next == round(now));
    if now.len() > 0 {
        let len = now.len() as int;
        let i = first_min_index(now);
        lemma_first_min_exists(now);
        let sel = now[i];
        let count = dispatches(start, n, sel.pid);
        lemma_dispatches_bounded(start, n, sel.pid);
        assert(sel.stride * (count + 1) == sel.stride * count + sel.stride) by (nonlinear_arith);
        assert(sel.stride * (count + 1) <= sel.stride * total) by (nonlinear_arith)
            requires
                count + 1 <= total,
                sel.stride >= 0,
        ;
        assert(sel.charged().pass == sel.pass + sel.stride);
        assert(next.len() == len);
        assert forall|m: int| 0 <= m < len implies {
            &&& (#[trigger] next[m]).pid == now[origin(len, i, m)].pid
            &&& next[m].stride == now[origin(len, i, m)].stride
            &&& origin(len, i, m) != i ==> next[m] == now[origin(len, i, m)]
            &&& origin(len, i, m) == i ==> next[m].pass == sel.pass + sel.stride
        } by {}
        assert forall|m: int| 0 <= m < len implies (#[trigger] next[m]).pass == next[m].stride
            * dispatches(start, (n + 1) as nat, next[m].pid) by {
            let o = origin(len, i, m);
            if o != i {
                assert(now[o].pid != now[i].pid);
            }
        }
        assert forall|m: int| 0 <= m < len implies (#[trigger] next[m]).stride * total
            <= u128::MAX by {
            let o = origin(len, i, m);
            assert(now[o].stride * total <= u128::MAX);
        }
        assert forall|x: int, y: int| 0 <= x < len && 0 <= y < len && x != y implies (
        #[trigger] next[x]).pid != (#[trigger] next[y]).pid by {
            let ox = origin(len, i, x);
            let oy = origin(len, i, y);
            assert(now[ox].pid != now[oy].pid);
        }
        assert forall|x: int, y: int| 0 <= x < len && 0 <= y < len implies (
        #[trigger] next[x]).pass <= (#[trigger] next[y]).pass + next[x].stride by {
            let ox = origin(len, i, x);
            let oy = origin(len, i, y);
            assert(now[ox].pass <= now[oy].pass + now[ox].stride);
            assert(now[i].pass <= now[oy].pass);
            assert(now[i].pass <= now[ox].pass);
        }
        assert forall|k: int| 0 <= k < start.len() implies #[trigger] present(start, next, k) by {
            assert(present(start, now, k));
            let old_slot = choose|slot: int| #[trigger] holds(start, now, k, slot);
            let slot = if old_slot == i {
                len - 1
            } else if old_slot < i {
                old_slot
            } else {
                old_slot - 1
            };
            assert(origin(len, i, slot) == old_slot);
            assert(holds(start, next, k, slot));
        }
    } else {
        assert(next == now);
    }
}

proof fn lemma_rounds_keep(start: Seq<TaskControlBlock>, n: nat, total: nat)
    requires
        distinct_pids(start),
        forall|k: int| 0 <= k < start.len() ==> (#[trigger] start[k]).pass == 0,
        forall|k: int| 0 <= k < start.len() ==> (#[trigger] start[k]).stride * total <= u128::MAX,
        n <= total,
    ensures
        kept(start, rounds(start, n), n, total),
    decreases n,
{
    if n == 0 {
        assert forall|k: int| 0 <= k < start.len() implies #[trigger] present(start, start, k) by {
            assert(holds(start, start, k, k));
        }
        assert forall|m: int| 0 <= m < start.len() implies (#[trigger] start[m]).pass
            == start[m].stride * dispatches(start, 0, start[m].pid) by {
            assert(start[m].stride * 0 == 0);
        }
    } else {
        lemma_rounds_keep(start, (n - 1) as nat, total);
        lemma_round_keeps(start, (n - 1) as nat, total);
    }
}

/// Stride fairness. Tasks with different `pid`s start at `pass` 0 and are put
/// back in the queue after each dispatch. After any number `n` of rounds that
/// leaves every `pass` below the largest value of its type, the virtual time
/// charged to one task, its stride times its number of dispatches, is ahead
/// of that charged to any other by no more than its own stride. So the
/// numbers of dispatches of two tasks are as the inverse of their strides, to
/// within one dispatch.
pub proof fn lemma_stride_fairness(queue: Seq<TaskControlBlock>, n: nat, x: int, y: int)
    requires
        distinct_pids(queue),
        forall|k: int| 0 <= k < queue.len() ==> (#[trigger] queue[k]).pass == 0,
        forall|k: int| 0 <= k < queue.len() ==> (#[trigger] queue[k]).stride * n <= u128::MAX,
        0 <= x < queue.len(),
        0 <= y < queue.len(),
    ensures
        queue[x].stride * dispatches(queue, n, queue[x].pid) <= queue[y].stride * dispatches(
            queue,
            n,
            queue[y].pid,
        ) + queue[x].stride,
{
    lemma_rounds_keep(queue, n, n);
    let now = rounds(queue, n);
    assert(present(queue, now, x));
    assert(present(queue, now, y));
    let sx = choose|slot: int| #[trigger] holds(queue, now, x, slot);
    let sy = choose|slot: int| #[trigger] holds(queue, now, y, slot);
    assert(holds(queue, now, x, sx));
    assert(holds(queue, now, y, sy));
    assert(now[sx].pass <= now[sy].pass + now[sx].stride);
}

/// Each round dispatches one of the two tasks of a queue of two.
proof fn lemma_pair_dispatches_sum(a: TaskControlBlock, b: TaskControlBlock, n: nat, total: nat)
    requires
        a.pass == 0,
        b.pass == 0,
        a.pid != b.pid,
        a.stride * total <= u128::MAX,
        b.stride * total <= u128::MAX,
        n <= total,
    ensures
        dispatches(seq![a, b], n, a.pid) + dispatches(seq![a, b], n, b.pid) == n,
    decreases n,
{
    if n > 0 {
        let start = seq![a, b];
        lemma_pair_dispatches_sum(a, b, (n - 1) as nat, total);
        lemma_rounds_keep(start, (n - 1) as nat, total);
        let before = rounds(start, (n - 1) as nat);
        lemma_first_min_exists(before);
        assert(present(start, before, 0));
        assert(present(start, before, 1));
        let sa = choose|slot: int| #[trigger] holds(start, before, 0, slot);
        let sb = choose|slot: int| #[trigger] holds(start, before, 1, slot);
        assert(holds(start, before, 0, sa));
        assert(holds(start, before, 1, sb));
        let i = first_min_index(before);
        assert(i == sa || i == sb);
    }
}

/// Of two tasks that start at `pass` 0 and are put back in the queue after
/// each dispatch, where the stride of `a` is twice that of `b`, `b` is
/// dispatched twice as often as `a`, to within two dispatches, after any
/// number of rounds that leaves both `pass` values below the largest value of
/// their type. The share of `a` in the dispatches so tends to one third as
/// the rounds go on.
pub proof fn lemma_double_stride_half_share(a: TaskControlBlock, b: TaskControlBlock, n: nat)
    requires
        a.pass == 0,
        b.pass == 0,
        a.pid != b.pid,
        b.stride > 0,
        a.stride == 2 * b.stride,
        a.stride * n <= u128::MAX,
    ensures
        dispatches(seq![a, b], n, a.pid) + dispatches(seq![a, b], n, b.pid) == n,
        2 * dispatches(seq![a, b], n, a.pid) <= dispatches(seq![a, b], n, b.pid) + 2,
        dispatches(seq![a, b], n, b.pid) <= 2 * dispatches(seq![a, b], n, a.pid) + 1,
{
    let queue = seq![a, b];
    let ca = dispatches(queue, n, a.pid);
    let cb = dispatches(queue, n, b.pid);
    let s = b.stride as int;
    assert(b.stride * n <= u128::MAX) by (nonlinear_arith)
        requires
            a.stride == 2 * b.stride,
            a.stride * n <= u128::MAX,
            b.stride > 0,
    ;
    lemma_pair_dispatches_sum(a, b, n, n);
    lemma_stride_fairness(queue, n, 0, 1);
    lemma_stride_fairness(queue, n, 1, 0);
    assert((2 * s) * ca <= s * cb + 2 * s);
    assert(s * cb <= (2 * s) * ca + s);
    assert(2 * ca <= cb + 2) by (nonlinear_arith)
        requires
            (2 * s) * ca <= s * cb + 2 * s,
            s > 0,
    ;
    assert(cb <= 2 * ca + 1) by (nonlinear_arith)
        requires
            s * cb <= (2 * s) * ca + s,
            s > 0,
    ;
}

} // verus!
