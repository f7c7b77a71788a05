//! Start times of the steps of a partial order.
use vstd::prelude::*;

use crate::orderings::BinaryOrderings;

verus! {

/// Whether a step has its start time: one more than the latest of the steps ordered
/// before it, and one where there is none.
pub open spec fn starts(order: &BinaryOrderings, times: Seq<usize>, id: int) -> bool {
    &&& times[id - 1] >= 1
    &&& forall|j: int| #[trigger] order.ordered(j, id) ==> times[j - 1] + 1 <= times[id - 1]
    &&& times[id - 1] == 1 || exists|j: int| #[trigger] order.ordered(j, id) && times[id - 1] == times[j - 1] + 1
}

/// Whether every real step has its start time, the step of id `i` at `i - 1`.
pub open spec fn is_schedule(order: &BinaryOrderings, times: Seq<usize>) -> bool {
    &&& times.len() == order.high()
    &&& forall|id: int| #[trigger] order.is_step(id) ==> starts(order, times, id)
}

/// Whether a time is the latest of some start times; zero of none.
pub open spec fn is_makespan(times: Seq<usize>, span: usize) -> bool {
    &&& forall|i: int| 0 <= i < times.len() ==> (#[trigger] times[i]) <= span
    &&& times.len() == 0 ==> span == 0
    &&& times.len() > 0 ==> exists|i: int| 0 <= i < times.len() && (#[trigger] times[i]) == span
}

/// How many of the steps up to `n` are ordered before a step.
pub open spec fn count_before(order: &BinaryOrderings, id: int, n: nat) -> nat
    decreases n,
{
    if n == 0 {
        0
    } else {
        count_before(order, id, (n - 1) as nat) + (if order.ordered(n as int, id) {
            1nat
        } else {
            0nat
        })
    }
}

proof fn lemma_count_bounded(order: &BinaryOrderings, id: int, n: nat)
    ensures
        count_before(order, id, n) <= n,
    decreases n,
{
    if n > 0 {
        lemma_count_bounded(order, id, (n - 1) as nat);
    }
}

/// A step ordered before another has fewer steps before it.
proof fn lemma_fewer(order: &BinaryOrderings, j: int, id: int, n: nat)
    requires
        order.strict_order(),
        order.ordered(j, id),
        1 <= j,
    ensures
        count_before(order, j, n) <= count_before(order, id, n),
        j <= n ==> count_before(order, j, n) < count_before(order, id, n),
    decreases n,
{
    if n > 0 {
        lemma_fewer(order, j, id, (n - 1) as nat);
        if order.ordered(n as int, j) {
            assert(order.ordered(n as int, id));
        }
        if j == n {
            assert(!order.ordered(j, j));
        }
    }
}

/// Two schedules of an order are the same.
pub proof fn schedule_is_unique(order: &BinaryOrderings, a: Seq<usize>, b: Seq<usize>)
    requires
        order.strict_order(),
        is_schedule(order, a),
        is_schedule(order, b),
    ensures
        a == b,
{
    assert forall|i: int| 0 <= i < a.len() implies a[i] == b[i] by {
        lemma_count_bounded(order, i + 1, order.high());
        lemma_same_time(order, a, b, i + 1, count_before(order, i + 1, order.high()));
    }
    assert(a =~= b);
}

proof fn lemma_same_time(order: &BinaryOrderings, a: Seq<usize>, b: Seq<usize>, id: int, n: nat)
    requires
        order.strict_order(),
        is_schedule(order, a),
        is_schedule(order, b),
        order.is_step(id),
        count_before(order, id, order.high()) <= n,
    ensures
        a[id - 1] == b[id - 1],
    decreases n,
{
    assert(starts(order, a, id) && starts(order, b, id));
    assert forall|j: int| #[trigger] order.ordered(j, id) implies a[j - 1] == b[j - 1] by {
        order.lemma_ordered_steps(j, id);
        lemma_fewer(order, j, id, order.high());
        lemma_same_time(order, a, b, j, (n - 1) as nat);
    }
}

impl BinaryOrderings {
    /// Each real step's integer start time, the step of id `i` at `i - 1`, and the
    /// makespan. The start time of a step is one plus the longest chain of
    /// predecessors; the initial step is not scheduled (it is implicitly at time 0).
    pub fn schedule(&self) -> (res: (Vec<usize>, usize))
        requires
            self.wf(),
        ensures
            is_schedule(self, res.0@),
            is_makespan(res.0@, res.1),
    {
        proof {
            self.lemma_order();
        }
        let high = self.highest();
        let mut times: Vec<usize> = Vec::new();
        let mut counts: Vec<usize> = Vec::new();
        let mut i: usize = 0;
        while i < high
            invariant
                self.wf(),
                high == self.high(),
                i <= high,
                times@.len() == i,
                counts@.len() == i,
                forall|k: int| 0 <= k < i ==> (#[trigger] counts@[k]) == count_before(self, k + 1, high as nat),
                forall|k: int| 0 <= k < i ==> (#[trigger] times@[k]) == 1,
            decreases high - i,
        {
            let mut n: usize = 0;
            let mut j: usize = 0;
            while j < high
                invariant
                    self.wf(),
                    high == self.high(),
                    i < high,
                    j <= high,
                    n <= j,
                    n == count_before(self, i + 1, j as nat),
                decreases high - j,
            {
                if self.comes_first(j + 1, i + 1) {
                    n = n + 1;
                }
                j = j + 1;
            }
            times.push(1);
            counts.push(n);
            i = i + 1;
        }
        let mut c: usize = 0;
        while c < high
            invariant
                self.wf(),
                self.strict_order(),
                high == self.high(),
                high <= usize::MAX / 4,
                c <= high,
                times@.len() == high,
                counts@.len() == high,
                forall|k: int| 0 <= k < high ==> (#[trigger] counts@[k]) == count_before(self, k + 1, high as nat),
                forall|k: int| 0 <= k < high && counts@[k] < c ==> starts(self, times@, k + 1) && (#[trigger] times@[k]) <= counts@[k] + 1,
            decreases high - c,
        {
            let mut k: usize = 0;
            while k < high
                invariant
                    self.wf(),
                    self.strict_order(),
                    high == self.high(),
                    high <= usize::MAX / 4,
                    c < high,
                    k <= high,
                    times@.len() == high,
                    counts@.len() == high,
                    forall|q: int| 0 <= q < high ==> (#[trigger] counts@[q]) == count_before(self, q + 1, high as nat),
                    forall|q: int|
                        0 <= q < high && (counts@[q] < c || (counts@[q] == c && q < k)) ==> starts(self, times@, q + 1) && (#[trigger] times@[q])
                            <= counts@[q] + 1,
                decreases high - k,
            {
                if counts[k] == c {
                    let ghost before = times@;
                    let t = self.start_of(&times, &counts, k + 1, c);
                    times.set(k, t);
                    proof {
                        self.lemma_kept(before, times@, counts@, k as int, c);
                    }
                }
                k = k + 1;
            }
            c = c + 1;
        }
        proof {
            assert forall|id: int| #[trigger] self.is_step(id) implies starts(self, times@, id) by {
                lemma_count_bounded(self, id, high as nat);
                lemma_not_itself(self, id, high as nat);
                assert(counts@[id - 1] < high);
                assert(times@[id - 1] <= counts@[id - 1] + 1);
            }
        }
        proof {
            assert forall|q: int| 0 <= q < times@.len() implies (#[trigger] times@[q]) >= 1 by {
                assert(self.is_step(q + 1));
            }
        }
        let mut span: usize = 0;
        let mut m: usize = 0;
        while m < times.len()
            invariant
                m <= times@.len(),
                forall|q: int| 0 <= q < times@.len() ==> (#[trigger] times@[q]) >= 1,
                forall|q: int| 0 <= q < m ==> (#[trigger] times@[q]) <= span,
                m == 0 ==> span == 0,
                m > 0 ==> exists|q: int| 0 <= q < times@.len() && (#[trigger] times@[q]) == span,
            decreases times@.len() - m,
        {
            if times[m] > span {
                span = times[m];
            }
            m = m + 1;
        }
        (times, span)
    }

    /// The start time of a step whose predecessors have theirs.
    fn start_of(&self, times: &Vec<usize>, counts: &Vec<usize>, id: usize, c: usize) -> (res: usize)
        requires
            self.wf(),
            self.strict_order(),
            self.is_step(id as int),
            times@.len() == self.high(),
            counts@.len() == self.high(),
            self.high() <= usize::MAX / 4,
            forall|k: int| 0 <= k < counts@.len() ==> (#[trigger] counts@[k]) == count_before(self, k + 1, self.high()),
            counts@[id - 1] == c,
            forall|k: int| 0 <= k < times@.len() && counts@[k] < c ==> 1 <= (#[trigger] times@[k]) <= counts@[k] + 1,
        ensures
            1 <= res <= c + 1,
            forall|j: int| #[trigger] self.ordered(j, id as int) ==> times@[j - 1] + 1 <= res,
            res == 1 || exists|j: int| #[trigger] self.ordered(j, id as int) && res == times@[j - 1] + 1,
    {
        let high = self.highest();
        let mut res: usize = 1;
        let mut j: usize = 1;
        while j <= high
            invariant
                self.wf(),
                self.strict_order(),
                self.is_step(id as int),
                high == self.high(),
                high <= usize::MAX / 4,
                times@.len() == high,
                counts@.len() == high,
                forall|k: int| 0 <= k < counts@.len() ==> (#[trigger] counts@[k]) == count_before(self, k + 1, self.high()),
                counts@[id - 1] == c,
                forall|k: int| 0 <= k < times@.len() && counts@[k] < c ==> 1 <= (#[trigger] times@[k]) <= counts@[k] + 1,
                1 <= j <= high + 1,
                1 <= res <= c + 1,
                forall|q: int| 1 <= q < j && #[trigger] self.ordered(q, id as int) ==> times@[q - 1] + 1 <= res,
                res == 1 || exists|q: int| #[trigger] self.ordered(q, id as int) && res == times@[q - 1] + 1,
            decreases high + 1 - j,
        {
            if self.comes_first(j, id) {
                proof {
                    lemma_fewer(self, j as int, id as int, self.high());
                    lemma_count_bounded(self, id as int, self.high());
                    assert(counts@[j - 1] < c);
                    assert(times@[j - 1] <= counts@[j - 1] + 1);
                }
                if times[j - 1] + 1 > res {
                    res = times[j - 1] + 1;
                    assert(self.ordered(j as int, id as int));
                }
            }
            j = j + 1;
        }
        proof {
            assert forall|q: int| #[trigger] self.ordered(q, id as int) implies times@[q - 1] + 1 <= res by {
                self.lemma_ordered_steps(q, id as int);
            }
        }
        res
    }

    /// Giving a step its start time keeps those of the steps with fewer predecessors.
    proof fn lemma_kept(&self, before: Seq<usize>, after: Seq<usize>, counts: Seq<usize>, k: int, c: usize)
        requires
            self.strict_order(),
            before.len() == self.high(),
            counts.len() == self.high(),
            0 <= k < self.high(),
            after == before.update(k, after[k]),
            counts[k] == c,
            forall|q: int| 0 <= q < counts.len() ==> (#[trigger] counts[q]) == count_before(self, q + 1, self.high()),
            1 <= after[k] <= c + 1,
            forall|j: int| #[trigger] self.ordered(j, k + 1) ==> before[j - 1] + 1 <= after[k],
            after[k] == 1 || exists|j: int| #[trigger] self.ordered(j, k + 1) && after[k] == before[j - 1] + 1,
            forall|q: int|
                0 <= q < before.len() && (counts[q] < c || (counts[q] == c && q < k)) ==> starts(self, before, q + 1) && (#[trigger] before[q]) <= counts[q]
                    + 1,
        ensures
            forall|q: int|
                0 <= q < after.len() && (counts[q] < c || (counts[q] == c && q < k + 1)) ==> starts(self, after, q + 1) && (#[trigger] after[q])
                    <= counts[q] + 1,
    {
        assert forall|q: int| 0 <= q < after.len() && (counts[q] < c || (counts[q] == c && q < k + 1)) implies starts(self, after, q + 1) && (
        #[trigger] after[q]) <= counts[q] + 1 by {
            assert forall|j: int| #[trigger] self.ordered(j, q + 1) implies after[j - 1] == before[j - 1] by {
                self.lemma_ordered_steps(j, q + 1);
                lemma_fewer(self, j, q + 1, self.high());
                assert(counts[j - 1] < counts[q]);
                assert(j - 1 != k);
            }
            if q != k {
                assert(before[q] <= counts[q] + 1);
                assert(starts(self, before, q + 1));
                if after[q] != 1 {
                    let j = choose|j: int| #[trigger] self.ordered(j, q + 1) && before[q] == before[j - 1] + 1;
                    assert(self.ordered(j, q + 1) && after[q] == after[j - 1] + 1);
                }
            } else if after[k] != 1 {
                let j = choose|j: int| #[trigger] self.ordered(j, k + 1) && after[k] == before[j - 1] + 1;
                assert(self.ordered(j, k + 1) && after[k] == after[j - 1] + 1);
            }
        }
    }
}

proof fn lemma_not_itself(order: &BinaryOrderings, id: int, n: nat)
    requires
        order.strict_order(),
        1 <= id <= n,
    ensures
        count_before(order, id, n) < n,
    decreases n,
{
    lemma_count_bounded(order, id, (n - 1) as nat);
    if id == n {
        assert(!order.ordered(id, id));
    } else {
        lemma_not_itself(order, id, (n - 1) as nat);
    }
}

} // verus!
