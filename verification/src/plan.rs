//! Cutting the input into byte ranges of equal size.

use vstd::prelude::*;

verus! {

/// A contiguous byte range `[start, end)` of the input, and its place among
/// the ranges.
#[derive(Clone, Copy, Debug, PartialEq, Eq, Structural)]
pub struct Partition {
    pub index: usize,
    pub start: usize,
    pub end: usize,
}

impl Partition {
    /// The first partition starts at the first byte.
    pub open spec fn wf(self) -> bool {
        self.index == 0 ==> self.start == 0
    }
}

/// The partition at `index` of `count` partitions of `size` bytes: it starts
/// at `(size / count) * index` and ends where the next one starts, the last
/// one at `size`.
pub open spec fn partition_spec(size: usize, count: usize, index: int) -> Partition {
    Partition {
        index: index as usize,
        start: ((size / count) * index) as usize,
        end: if index + 1 < count {
            ((size / count) * (index + 1)) as usize
        } else {
            size
        },
    }
}

/// The partitions of `size` bytes into `count` ranges.
pub open spec fn plan_spec(size: usize, count: usize) -> Seq<Partition> {
    Seq::new(count as nat, |i: int| partition_spec(size, count, i))
}

proof fn lemma_step_bound(size: usize, count: usize, i: int)
    requires
        count >= 1,
        0 <= i <= count,
    ensures
        0 <= (size / count) * i <= size,
{
    let step = (size / count) as int;
    vstd::arithmetic::div_mod::lemma_fundamental_div_mod(size as int, count as int);
    assert(step * i <= step * count) by (nonlinear_arith)
        requires
            0 <= step,
            0 <= i <= count,
    ;
    assert(0 <= step * i) by (nonlinear_arith)
        requires
            0 <= step,
            0 <= i,
    ;
    assert(step * count == count * step) by (nonlinear_arith);
}

proof fn lemma_step_monotone(size: usize, count: usize, i: int)
    requires
        count >= 1,
        0 <= i,
    ensures
        (size / count) * i <= (size / count) * (i + 1),
{
    let step = (size / count) as int;
    assert(step * i <= step * (i + 1)) by (nonlinear_arith)
        requires
            0 <= step,
    ;
}

/// The planned ranges cover `[0, size)` without gap or overlap: the first
/// starts at 0, each ends where the next starts, and the last ends at `size`.
pub proof fn lemma_plan_covers(size: usize, count: usize)
    requires
        count >= 1,
    ensures
        plan_spec(size, count).len() == count,
        plan_spec(size, count)[0].start == 0,
        plan_spec(size, count)[count - 1].end == size,
        forall|i: int|
            0 <= i < count ==> {
                let p = #[trigger] plan_spec(size, count)[i];
                &&& p.wf()
                &&& p.index == i
                &&& p.start <= p.end <= size
                &&& i + 1 < count ==> p.end == plan_spec(size, count)[i + 1].start
            },
{
    assert forall|i: int| 0 <= i < count implies {
        let p = #[trigger] plan_spec(size, count)[i];
        &&& p.wf()
        &&& p.index == i
        &&& p.start <= p.end <= size
        &&& i + 1 < count ==> p.end == plan_spec(size, count)[i + 1].start
    } by {
        lemma_step_bound(size, count, i);
        lemma_step_bound(size, count, i + 1);
        lemma_step_monotone(size, count, i);
        let p = plan_spec(size, count)[i];
        assert(p == partition_spec(size, count, i));
        assert(p.index == i);
        assert(p.start == (size / count) * i);
        assert(i == 0 ==> p.start == 0) by (nonlinear_arith)
            requires
                p.start == (size / count) * i,
        ;
        assert(p.start <= p.end);
        assert(p.end <= size);
        if i + 1 < count {
            assert(plan_spec(size, count)[i + 1] == partition_spec(size, count, i + 1));
        }
    }
    lemma_step_bound(size, count, 0);
}

/// Cuts `size` bytes into `count` ranges.
pub fn plan(size: usize, count: usize) -> (parts: Vec<Partition>)
    requires
        count >= 1,
    ensures
        parts@ == plan_spec(size, count),
{
    let step: usize = size / count;
    let mut parts: Vec<Partition> = Vec::new();
    let mut i: usize = 0;
    while i < count
        invariant
            i <= count,
            count >= 1,
            step == size / count,
            parts@.len() == i,
            forall|j: int| 0 <= j < i ==> parts@[j] == partition_spec(size, count, j),
        decreases count - i,
    {
        proof {
            lemma_step_bound(size, count, i as int);
            lemma_step_bound(size, count, i + 1);
        }
        let start: usize = step * i;
        let end: usize = if i + 1 < count { step * (i + 1) } else { size };
        parts.push(Partition { index: i, start, end });
        i += 1;
    }
    proof {
        assert(parts@ =~= plan_spec(size, count));
    }
    parts
}

} // verus!
