//! How the tasks of a run are handed to the workers: all at once, or in
//! batches of a fixed size, each batch completed before the next starts.

use vstd::prelude::*;

verus! {

/// The way tasks are distributed.
#[derive(Debug, Clone, Copy, PartialEq, Eq, Structural)]
pub enum Policy {
    /// Every task goes to one pool of workers at once.
    Pooled,
    /// Tasks go out in batches of this many, with a barrier after each.
    Chunked(usize),
}

/// The policy that a batch size asks for: 0 stands for the pool.
pub open spec fn policy_for(batch_size: usize) -> Policy {
    if batch_size == 0 {
        Policy::Pooled
    } else {
        Policy::Chunked(batch_size)
    }
}

/// Where the batch that starts at task `start` ends (the index after its last
/// task), in a run of `total` tasks.
pub open spec fn batch_end_of(policy: Policy, start: int, total: int) -> int {
    match policy {
        Policy::Pooled => total,
        Policy::Chunked(size) => if size == 0 || total - start <= size {
            total
        } else {
            start + size
        },
    }
}

/// How many batches the tasks from `start` on make.
pub open spec fn batches_from(policy: Policy, start: int, total: int) -> nat
    decreases total - start,
{
    if start >= total {
        0
    } else {
        1 + batches_from(policy, batch_end_of(policy, start, total), total)
    }
}

impl Policy {
    /// The policy that a batch size asks for: 0 stands for the pool.
    pub fn from_batch_size(batch_size: usize) -> (policy: Policy)
        ensures
            policy == policy_for(batch_size),
    {
        if batch_size == 0 {
            Policy::Pooled
        } else {
            Policy::Chunked(batch_size)
        }
    }

    /// The end of the batch that starts at task `start`: the tasks from
    /// `start` up to, not including, the result run together.
    pub fn batch_end(&self, start: usize, total: usize) -> (end: usize)
        requires
            start <= total,
        ensures
            end == batch_end_of(*self, start as int, total as int),
            start <= end <= total,
            start < total ==> start < end,
    {
        match *self {
            Policy::Pooled => total,
            Policy::Chunked(size) => {
                if size == 0 || total - start <= size {
                    total
                } else {
                    start + size
                }
            },
        }
    }

    /// The batches of a run of `total` tasks, each as the index of its first
    /// task and the index after its last, in order.
    pub fn batches(&self, total: usize) -> (out: Vec<(usize, usize)>)
        ensures
            covers(out@, 0, total as int),
            out.len() == batches_from(*self, 0, total as int),
            forall|i: int|
                0 <= i < out.len() ==> (#[trigger] out[i]).1 == batch_end_of(
                    *self,
                    out[i].0 as int,
                    total as int,
                ),
    {
        let mut out: Vec<(usize, usize)> = Vec::new();
        let mut start: usize = 0;
        while start < total
            invariant
                start <= total,
                covers(out@, 0, start as int),
                out.len() + batches_from(*self, start as int, total as int) == batches_from(
                    *self,
                    0,
                    total as int,
                ),
                forall|i: int|
                    0 <= i < out.len() ==> (#[trigger] out[i]).1 == batch_end_of(
                        *self,
                        out[i].0 as int,
                        total as int,
                    ),
            decreases total - start,
        {
            let end = self.batch_end(start, total);
            proof {
                lemma_covers_push(out@, 0, start as int, end as int);
            }
            out.push((start, end));
            start = end;
        }
        out
    }
}

/// The ranges `batches` follow one another without gap or overlap from
/// `from` to `to`, and none is empty.
pub open spec fn covers(batches: Seq<(usize, usize)>, from: int, to: int) -> bool
    decreases batches.len(),
{
    if batches.len() == 0 {
        from == to
    } else {
        &&& batches.last().1 == to
        &&& batches.last().0 < batches.last().1
        &&& covers(batches.drop_last(), from, batches.last().0 as int)
    }
}

/// A list of ranges that covers up to `mid` covers up to `to` with the range
/// from `mid` to `to` added.
pub proof fn lemma_covers_push(batches: Seq<(usize, usize)>, from: int, mid: int, to: int)
    requires
        covers(batches, from, mid),
        0 <= mid < to <= usize::MAX,
    ensures
        covers(batches.push((mid as usize, to as usize)), from, to),
{
    assert(batches.push((mid as usize, to as usize)).drop_last() =~= batches);
}

/// Every task of a run is in exactly one batch: an index below the end that a
/// list of ranges covers lies in one of the ranges, and in no second one.
pub proof fn lemma_every_task_in_one_batch(batches: Seq<(usize, usize)>, to: int, task: int)
    requires
        covers(batches, 0, to),
        0 <= task < to,
    ensures
        exists|i: int|
            0 <= i < batches.len() && (#[trigger] batches[i]).0 <= task < batches[i].1,
        forall|i: int, j: int|
            0 <= i < batches.len() && 0 <= j < batches.len() && (#[trigger] batches[i]).0 <= task
                < batches[i].1 && (#[trigger] batches[j]).0 <= task < batches[j].1 ==> i == j,
    decreases batches.len(),
{
    lemma_covered_ranges_lie_below(batches, 0, to);
    let last = batches.len() - 1;
    if task >= batches.last().0 {
        assert(batches[last].0 <= task < batches[last].1);
        assert forall|i: int| 0 <= i < last implies (#[trigger] batches[i]).1 <= task by {
            lemma_covered_ranges_lie_below(batches.drop_last(), 0, batches.last().0 as int);
            assert(batches.drop_last()[i] == batches[i]);
        }
    } else {
        let init = batches.drop_last();
        lemma_every_task_in_one_batch(init, batches.last().0 as int, task);
        let w = choose|i: int| 0 <= i < init.len() && (#[trigger] init[i]).0 <= task < init[i].1;
        assert(batches[w] == init[w]);
        assert forall|i: int, j: int|
            0 <= i < batches.len() && 0 <= j < batches.len() && (#[trigger] batches[i]).0 <= task
                < batches[i].1 && (#[trigger] batches[j]).0 <= task < batches[j].1 implies i
            == j by {
            assert(i < last && j < last);
            assert(init[i] == batches[i] && init[j] == batches[j]);
        }
    }
}

/// Ranges that cover from `from` to `to` all lie between the two.
pub proof fn lemma_covered_ranges_lie_below(batches: Seq<(usize, usize)>, from: int, to: int)
    requires
        covers(batches, from, to),
    ensures
        from <= to,
        forall|i: int|
            0 <= i < batches.len() ==> from <= (#[trigger] batches[i]).0 && batches[i].1 <= to,
    decreases batches.len(),
{
    if batches.len() > 0 {
        let init = batches.drop_last();
        lemma_covered_ranges_lie_below(init, from, batches.last().0 as int);
        assert forall|i: int| 0 <= i < batches.len() implies from <= (#[trigger] batches[i]).0
            && batches[i].1 <= to by {
            if i < batches.len() - 1 {
                assert(init[i] == batches[i]);
            }
        }
    }
}

/// How many tasks the ranges `batches` hold, a task that is in two of them
/// counted twice.
pub open spec fn tasks_in(batches: Seq<(usize, usize)>) -> int
    decreases batches.len(),
{
    if batches.len() == 0 {
        0
    } else {
        tasks_in(batches.drop_last()) + (batches.last().1 - batches.last().0)
    }
}

/// Whatever the policy, the batches of a run hold as many tasks as the run
/// has: ranges that cover from `from` to `to` hold `to - from` tasks.
pub proof fn lemma_batches_hold_every_task(batches: Seq<(usize, usize)>, from: int, to: int)
    requires
        covers(batches, from, to),
    ensures
        tasks_in(batches) == to - from,
    decreases batches.len(),
{
    if batches.len() > 0 {
        lemma_batches_hold_every_task(batches.drop_last(), from, batches.last().0 as int);
    }
}

} // verus!
