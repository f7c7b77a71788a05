//! Step ordering constraints.
//!
//! A [`BinaryOrderings`] is the transitive closure of a strict partial order
//! over real step ids (1-based). Step 0 (the initial step) precedes everything
//! and the goal step ([`GOAL_ID`]) follows everything; those two are handled
//! specially rather than stored in the matrix.
use std::rc::Rc;

use vstd::prelude::*;

use crate::plan::GOAL_ID;

verus! {

/// A step time point. For non-durative planning only the start/end distinction
/// is carried; [`BinaryOrderings`] ignores it (it reasons purely about step ids).
#[derive(Debug, Clone, Copy, PartialEq, Eq, Structural)]
pub enum StepTime {
    AtStart,
    AtEnd,
}

/// An ordering constraint `before_id < after_id`.
#[derive(Debug, Clone, Copy)]
pub struct StepOrder {
    pub before_id: usize,
    pub before_time: StepTime,
    pub after_id: usize,
    pub after_time: StepTime,
}

impl StepOrder {
    pub fn new(before_id: usize, before_time: StepTime, after_id: usize, after_time: StepTime) -> (res: Self)
        ensures
            res == (StepOrder { before_id, before_time, after_id, after_time }),
    {
        StepOrder { before_id, before_time, after_id, after_time }
    }
}

/// One row of the transitive-closure matrix, bit-packed into `u64` words.
/// The row for step `m` (`m >= 2`) holds `2*m - 2` bits encoding `m`'s order
/// relation with every lower-numbered step in both directions (see [`BinaryOrderings`]).
#[derive(Debug)]
struct Row {
    words: Vec<u64>,
}

spec fn word_bit(w: u64, b: u64) -> bool {
    (w >> b) & 1 != 0
}

proof fn lemma_word_bit_set(w: u64, b: u64, c: u64)
    requires
        b < 64,
        c < 64,
    ensures
        word_bit(w | (1u64 << b), c) == (c == b || word_bit(w, c)),
{
    assert((((w | (1u64 << b)) >> c) & 1 != 0) == (c == b || (w >> c) & 1 != 0)) by (bit_vector)
        requires
            b < 64,
            c < 64,
    ;
}

proof fn lemma_word_bit_zero(c: u64)
    requires
        c < 64,
    ensures
        !word_bit(0, c),
{
    assert((0u64 >> c) & 1 == 0) by (bit_vector);
}

impl Row {
    /// Bit `i` of the row.
    spec fn bit(&self, i: int) -> bool {
        word_bit(self.words@[i / 64], (i % 64) as u64)
    }

    /// Whether the row has room for `nbits` bits.
    spec fn holds(&self, nbits: int) -> bool {
        nbits <= 64 * self.words@.len()
    }

    fn with_bits(nbits: usize) -> (res: Row)
        requires
            nbits <= usize::MAX - 64,
        ensures
            res.holds(nbits as int),
            forall|i: int| 0 <= i < nbits ==> !res.bit(i),
    {
        let n: usize = (nbits + 63) / 64;
        let mut words: Vec<u64> = Vec::new();
        let mut i: usize = 0;
        while i < n
            invariant
                i <= n,
                words@.len() == i,
                forall|k: int| 0 <= k < i ==> words@[k] == 0,
            decreases n - i,
        {
            words.push(0);
            i = i + 1;
        }
        let res = Row { words };
        assert forall|i: int| 0 <= i < nbits implies !res.bit(i) by {
            lemma_word_bit_zero((i % 64) as u64);
        }
        res
    }

    fn get(&self, i: usize) -> (res: bool)
        requires
            self.holds(i + 1),
        ensures
            res == self.bit(i as int),
    {
        let b: u64 = (i % 64) as u64;
        (self.words[i / 64] >> b) & 1 != 0
    }

    /// The row with bit `i` set.
    fn with(&self, i: usize) -> (res: Row)
        requires
            self.holds(i + 1),
        ensures
            forall|n: int| self.holds(n) ==> #[trigger] res.holds(n),
            forall|k: int| 0 <= k && self.holds(k + 1) ==> #[trigger] res.bit(k) == (k == i || self.bit(k)),
    {
        let mut words = crate::text::copy_vec(&self.words);
        let b: u64 = (i % 64) as u64;
        let w = words[i / 64];
        words.set(i / 64, w | (1u64 << b));
        let res = Row { words };
        assert forall|k: int| 0 <= k && self.holds(k + 1) implies #[trigger] res.bit(k) == (k == i || self.bit(k)) by {
            lemma_word_bit_set(w, b, (k % 64) as u64);
            if k / 64 == i / 64 {
                assert(k % 64 == i % 64 <==> k == i);
            }
        }
        res
    }
}

/// Transitive-closure boolean order over real step ids.
///
/// One bit-packed row per step, shared across plans via `Rc` with copy-on-write
/// at row granularity. A `refine` only deep-copies the rows it modifies; sibling
/// plans share the rest. `rows[m - 2]` is the row for step `m` (`m` in
/// `2..=high_id`), so `rows.len() == high_id - 1` (empty while `high_id <= 1`).
/// Within step `m`'s row of `2*m - 2` bits: bit `k - 1` is "step `k` before step
/// `m`" and bit `2*m - 2 - k` is "step `m` before step `k`", for each lower step
/// `k` in `1..m`.
#[derive(Debug)]
pub struct BinaryOrderings {
    /// Highest real step id seen (0 means only init/goal). Real steps are
    /// `1..=high_id`.
    high_id: usize,
    /// Per-step transitive-closure rows; see the type doc for the layout.
    rows: Vec<Rc<Row>>,
}

impl BinaryOrderings {
    /// The highest real step id.
    pub closed spec fn high(&self) -> nat {
        self.high_id as nat
    }

    /// Whether `id` is a real step.
    pub open spec fn is_step(&self, id: int) -> bool {
        1 <= id <= self.high()
    }

    /// The stored relation between two real steps.
    spec fn stored(&self, a: int, b: int) -> bool {
        if a == b {
            false
        } else if a < b {
            self.rows@[b - 2].bit(a - 1)
        } else {
            self.rows@[a - 2].bit(2 * a - 2 - b)
        }
    }

    /// Whether real step `a` is ordered before real step `b`.
    pub closed spec fn ordered(&self, a: int, b: int) -> bool {
        self.is_step(a) && self.is_step(b) && self.stored(a, b)
    }

    /// Whether step `a` precedes step `b` in every linearization: the initial
    /// step precedes all others, the goal step follows all others, and the real
    /// steps precede each other as they are ordered.
    pub open spec fn precedes(&self, a: int, b: int) -> bool {
        a != b && (a == 0 || b == GOAL_ID || self.ordered(a, b))
    }

    spec fn shape(&self) -> bool {
        &&& self.high_id <= usize::MAX / 4
        &&& self.rows@.len() == (if self.high_id <= 1 { 0 } else { self.high_id - 1 })
        &&& forall|m: int| 2 <= m <= self.high_id ==> (#[trigger] self.rows@[m - 2]).holds(2 * m - 2)
    }

    /// The relation over real steps is a strict partial order, transitively closed.
    pub open spec fn strict_order(&self) -> bool {
        &&& forall|a: int, b: int| #[trigger] self.ordered(a, b) ==> !self.ordered(b, a)
        &&& forall|a: int, b: int, c: int| #[trigger] self.ordered(a, b) && #[trigger] self.ordered(b, c) ==> self.ordered(a, c)
    }

    pub closed spec fn wf(&self) -> bool {
        self.shape() && self.strict_order()
    }

    /// The two ids can be compared: they are equal, one of them is the initial
    /// or the goal step, or both are real steps.
    pub open spec fn comparable(&self, a: int, b: int) -> bool {
        a == b || a == 0 || b == 0 || a == GOAL_ID || b == GOAL_ID || (self.is_step(a) && self.is_step(b))
    }

    /// `self` is `pre` with `i` before `j` added, transitively closed.
    pub open spec fn adds(&self, pre: &BinaryOrderings, i: int, j: int) -> bool {
        forall|a: int, b: int| #[trigger] self.ordered(a, b) <==> (pre.ordered(a, b) || ((a == i || pre.ordered(a, i)) && (b == j
            || pre.ordered(j, b))))
    }

    /// `self` orders its real steps as `pre` does.
    pub open spec fn same_order(&self, pre: &BinaryOrderings) -> bool {
        forall|a: int, b: int| #[trigger] self.ordered(a, b) <==> pre.ordered(a, b)
    }

    /// The ordered pairs of real steps.
    pub open spec fn pairs(&self) -> Set<(int, int)> {
        Set::new(|p: (int, int)| self.ordered(p.0, p.1))
    }

    /// No real step, no order.
    pub fn new() -> (res: Self)
        ensures
            res.wf(),
            res.high() == 0,
    {
        BinaryOrderings { high_id: 0, rows: Vec::new() }
    }

    /// The highest real step id.
    pub(crate) fn highest(&self) -> (res: usize)
        ensures
            res == self.high(),
    {
        self.high_id
    }

    /// Whether a real step is ordered before another.
    pub(crate) fn comes_first(&self, id1: usize, id2: usize) -> (res: bool)
        requires
            self.wf(),
            self.is_step(id1 as int),
            self.is_step(id2 as int),
        ensures
            res == self.ordered(id1 as int, id2 as int),
    {
        self.ordered_before(id1, id2)
    }

    /// What the invariant says of the order.
    pub(crate) proof fn lemma_order(&self)
        requires
            self.wf(),
        ensures
            self.strict_order(),
            self.high() <= usize::MAX / 4,
    {
    }

    /// Only real steps are ordered.
    pub(crate) proof fn lemma_ordered_steps(&self, a: int, b: int)
        requires
            self.ordered(a, b),
        ensures
            self.is_step(a),
            self.is_step(b),
    {
    }

    /// Returns true iff real step `id1` is ordered before real step `id2`.
    /// Both ids must be real steps (callers handle init/goal specially first).
    fn ordered_before(&self, id1: usize, id2: usize) -> (res: bool)
        requires
            self.shape(),
            self.is_step(id1 as int),
            self.is_step(id2 as int),
        ensures
            res == self.ordered(id1 as int, id2 as int),
    {
        if id1 == id2 {
            false
        } else if id1 < id2 {
            assert(self.rows@[id2 - 2].holds(2 * id2 - 2));
            self.rows[id2 - 2].get(id1 - 1)
        } else {
            assert(self.rows@[id1 - 2].holds(2 * id1 - 2));
            self.rows[id1 - 2].get(2 * id1 - 2 - id2)
        }
    }

    /// Whether some linearization has `id1` before `id2`.
    pub fn possibly_before(&self, id1: usize, _t1: StepTime, id2: usize, _t2: StepTime) -> (res: bool)
        requires
            self.wf(),
            self.comparable(id1 as int, id2 as int),
        ensures
            res == (id1 != id2 && !self.precedes(id2 as int, id1 as int)),
    {
        if id1 == id2 {
            false
        } else if id1 == 0 || id2 == GOAL_ID {
            true
        } else if id1 == GOAL_ID || id2 == 0 {
            false
        } else {
            !self.ordered_before(id2, id1)
        }
    }

    /// Whether some linearization has `id1` after `id2`.
    pub fn possibly_after(&self, id1: usize, _t1: StepTime, id2: usize, _t2: StepTime) -> (res: bool)
        requires
            self.wf(),
            self.comparable(id1 as int, id2 as int),
        ensures
            res == (id1 != id2 && !self.precedes(id1 as int, id2 as int)),
    {
        if id1 == id2 {
            false
        } else if id1 == 0 || id2 == GOAL_ID {
            false
        } else if id1 == GOAL_ID || id2 == 0 {
            true
        } else {
            !self.ordered_before(id1, id2)
        }
    }

    pub fn possibly_not_before(&self, id1: usize, t1: StepTime, id2: usize, t2: StepTime) -> (res: bool)
        requires
            self.wf(),
            self.comparable(id1 as int, id2 as int),
        ensures
            res == (id1 != id2 && !self.precedes(id1 as int, id2 as int)),
    {
        self.possibly_after(id1, t1, id2, t2)
    }

    pub fn possibly_not_after(&self, id1: usize, t1: StepTime, id2: usize, t2: StepTime) -> (res: bool)
        requires
            self.wf(),
            self.comparable(id1 as int, id2 as int),
        ensures
            res == (id1 != id2 && !self.precedes(id2 as int, id1 as int)),
    {
        self.possibly_before(id1, t1, id2, t2)
    }

    /// Shares the rows with a new collection.
    fn share(&self) -> (res: BinaryOrderings)
        requires
            self.shape(),
        ensures
            res.shape(),
            res.high_id == self.high_id,
            res.rows@ == self.rows@,
    {
        let mut rows: Vec<Rc<Row>> = Vec::new();
        let mut i: usize = 0;
        while i < self.rows.len()
            invariant
                i <= self.rows@.len(),
                rows@ == self.rows@.take(i as int),
            decreases self.rows@.len() - i,
        {
            rows.push(self.rows[i].clone());
            i = i + 1;
            assert(self.rows@.take(i as int) =~= self.rows@.take(i - 1).push(self.rows@[i - 1]));
        }
        assert(rows@ =~= self.rows@);
        BinaryOrderings { high_id: self.high_id, rows }
    }

    /// Returns the ordering collection with `new_ordering` added, or `self` when the
    /// ordering is already implied or trivially redundant. Returns `None` if the ordering is inconsistent (would create a
    /// cycle).
    pub fn refine(self: &Rc<Self>, new_ordering: StepOrder) -> (res: Option<Rc<BinaryOrderings>>)
        requires
            self.wf(),
            self.comparable(new_ordering.before_id as int, new_ordering.after_id as int),
        ensures
            ({
                let i = new_ordering.before_id as int;
                let j = new_ordering.after_id as int;
                &&& res is None <==> (i == j || self.precedes(j, i))
                &&& res matches Some(r) ==> {
                    &&& r.wf()
                    &&& r.high() == self.high()
                    &&& self.precedes(i, j) ==> *r == **self
                    &&& !self.precedes(i, j) ==> r.adds(&**self, i, j)
                    &&& r.precedes(i, j)
                }
            }),
    {
        let i = new_ordering.before_id;
        let j = new_ordering.after_id;
        if i == j || !self.possibly_before(i, new_ordering.before_time, j, new_ordering.after_time) {
            return None;
        }
        if self.possibly_not_before(i, new_ordering.before_time, j, new_ordering.after_time) {
            let mut orderings = self.share();
            proof {
                assert(orderings.same_order(&**self));
                assert(orderings.strict_order());
            }
            orderings.fill_transitive(i, j);
            Some(Rc::new(orderings))
        } else {
            Some(self.clone())
        }
    }

    /// Returns the ordering collection accounting for a freshly added step plus
    /// the new ordering; `None` if the ordering would create a cycle.
    pub fn refine_with_step(self: &Rc<Self>, new_ordering: StepOrder, new_step_id: usize) -> (res: Option<
        Rc<BinaryOrderings>,
    >)
        requires
            self.wf(),
            new_step_id == GOAL_ID || new_step_id <= usize::MAX / 4,
            new_step_id != 0 && new_step_id != GOAL_ID ==> {
                let i = new_ordering.before_id as int;
                let j = new_ordering.after_id as int;
                let top = if new_step_id > self.high() {
                    new_step_id as int
                } else {
                    self.high() as int
                };
                i == j || i == 0 || j == 0 || i == GOAL_ID || j == GOAL_ID || (1 <= i <= top && 1 <= j <= top)
            },
        ensures
            ({
                let i = new_ordering.before_id as int;
                let j = new_ordering.after_id as int;
                if new_step_id == 0 || new_step_id == GOAL_ID {
                    res is Some && *res->0 == **self
                } else {
                    &&& res is None <==> (i == j || self.precedes(j, i))
                    &&& res matches Some(r) ==> {
                        &&& r.wf()
                        &&& r.high() == (if new_step_id > self.high() {
                            new_step_id as nat
                        } else {
                            self.high()
                        })
                        &&& self.precedes(i, j) ==> r.same_order(&**self)
                        &&& !self.precedes(i, j) ==> r.adds(&**self, i, j)
                        &&& r.precedes(i, j)
                    }
                }
            }),
    {
        if new_step_id != 0 && new_step_id != GOAL_ID {
            let mut orderings = self.share();
            if new_step_id > orderings.high_id {
                orderings.grow(new_step_id);
            }
            proof {
                assert(orderings.same_order(&**self));
                assert(orderings.strict_order());
            }
            let i = new_ordering.before_id;
            let j = new_ordering.after_id;
            if i == j || !orderings.possibly_before(i, new_ordering.before_time, j, new_ordering.after_time) {
                return None;
            }
            if orderings.possibly_not_before(i, new_ordering.before_time, j, new_ordering.after_time) {
                orderings.fill_transitive(i, j);
            }
            Some(Rc::new(orderings))
        } else {
            Some(self.clone())
        }
    }

    /// Makes room for the steps up to `step_id`, unordered with all others.
    fn grow(&mut self, step_id: usize)
        requires
            old(self).shape(),
            old(self).high_id < step_id <= usize::MAX / 4,
        ensures
            final(self).shape(),
            final(self).high_id == step_id,
            final(self).same_order(&*old(self)),
    {
        let ghost before = *self;
        let mut m: usize = self.rows.len() + 2;
        while m <= step_id
            invariant
                before.shape(),
                before.high_id < step_id <= usize::MAX / 4,
                self.high_id == before.high_id,
                2 <= m <= step_id + 1,
                self.rows@.len() == m - 2,
                before.rows@.len() <= self.rows@.len(),
                forall|k: int| 0 <= k < before.rows@.len() ==> self.rows@[k] == before.rows@[k],
                forall|k: int| 2 <= k < m ==> (#[trigger] self.rows@[k - 2]).holds(2 * k - 2),
                forall|k: int, b: int| before.high_id < k < m && 2 <= k && 0 <= b < 2 * k - 2 ==> !(#[trigger] self.rows@[k - 2].bit(b)),
            decreases step_id - m + 1,
        {
            let row = Row::with_bits(2 * m - 2);
            let ghost rows_before = self.rows@;
            self.rows.push(Rc::new(row));
            assert forall|k: int| 2 <= k < m + 1 implies (#[trigger] self.rows@[k - 2]).holds(2 * k - 2) by {
                if k < m {
                    assert(self.rows@[k - 2] == rows_before[k - 2]);
                }
            }
            assert forall|k: int, b: int| before.high_id < k < m + 1 && 2 <= k && 0 <= b < 2 * k - 2 implies !(#[trigger] self.rows@[k
                - 2].bit(b)) by {
                if k < m {
                    assert(self.rows@[k - 2] == rows_before[k - 2]);
                }
            }
            m = m + 1;
        }
        self.high_id = step_id;
        proof {
            assert forall|a: int, b: int| #[trigger] self.ordered(a, b) <==> before.ordered(a, b) by {
                if self.is_step(a) && self.is_step(b) && a != b {
                    let top = if a < b {
                        b
                    } else {
                        a
                    };
                    if top > before.high_id {
                        if a < b {
                            assert(!self.rows@[b - 2].bit(a - 1));
                        } else {
                            assert(!self.rows@[a - 2].bit(2 * a - 2 - b));
                        }
                    } else {
                        assert(self.rows@[top - 2] == before.rows@[top - 2]);
                    }
                }
            }
        }
    }

    /// Marks `id1` before `id2`. The affected row is copied.
    fn set_before(&mut self, id1: usize, id2: usize)
        requires
            old(self).shape(),
            old(self).is_step(id1 as int),
            old(self).is_step(id2 as int),
        ensures
            final(self).shape(),
            final(self).high_id == old(self).high_id,
            forall|a: int, b: int| #[trigger] final(self).ordered(a, b) <==> (old(self).ordered(a, b) || (id1 != id2 && a == id1
                && b == id2)),
    {
        let ghost before = *self;
        if id1 != id2 {
            let top = if id1 < id2 {
                id2
            } else {
                id1
            };
            let i: usize = top - 2;
            assert(self.rows@[top - 2].holds(2 * top - 2));
            let at: usize = if id1 < id2 {
                id1 - 1
            } else {
                2 * id1 - 2 - id2
            };
            let row = self.rows[i].with(at);
            self.rows.set(i, Rc::new(row));
            proof {
                assert forall|m: int| 2 <= m <= self.high_id implies (#[trigger] self.rows@[m - 2]).holds(2 * m - 2) by {
                    assert(before.rows@[m - 2].holds(2 * m - 2));
                }
                assert forall|a: int, b: int| #[trigger] self.ordered(a, b) <==> (before.ordered(a, b) || (a == id1 && b == id2)) by {
                    if self.is_step(a) && self.is_step(b) && a != b {
                        let m = if a < b {
                            b
                        } else {
                            a
                        };
                        assert(before.rows@[m - 2].holds(2 * m - 2));
                        if m == top {
                            let k = if a < b {
                                a - 1
                            } else {
                                2 * a - 2 - b
                            };
                            assert(before.rows@[m - 2].holds(k + 1));
                            assert(self.rows@[m - 2].bit(k) == (k == at || before.rows@[m - 2].bit(k)));
                        } else {
                            assert(self.rows@[m - 2] == before.rows@[m - 2]);
                        }
                    }
                }
            }
        }
    }

    /// Updates the transitive closure given a new ordering constraint: all steps
    /// ordered before `i` (and `i` itself) precede `j` and all steps ordered
    /// after `j`.
    fn fill_transitive(&mut self, i: usize, j: usize)
        requires
            old(self).shape(),
            old(self).strict_order(),
            old(self).is_step(i as int),
            old(self).is_step(j as int),
            i != j,
            !old(self).ordered(j as int, i as int),
            !old(self).ordered(i as int, j as int),
        ensures
            final(self).shape(),
            final(self).strict_order(),
            final(self).high_id == old(self).high_id,
            final(self).adds(&*old(self), i as int, j as int),
    {
        let ghost pre = *self;
        let n = self.high_id;
        let mut k: usize = 1;
        while k <= n
            invariant
                pre.shape(),
                pre.strict_order(),
                self.shape(),
                self.high_id == pre.high_id == n,
                n <= usize::MAX / 4,
                pre.is_step(i as int),
                pre.is_step(j as int),
                i != j,
                !pre.ordered(j as int, i as int),
                1 <= k <= n + 1,
                forall|a: int, b: int| #[trigger] self.ordered(a, b) <==> (pre.ordered(a, b) || (a < k && lifts(&pre, a, b, i as int, j as int))),
            decreases n - k + 1,
        {
            proof {
                assert(self.ordered(k as int, i as int) == pre.ordered(k as int, i as int));
            }
            if (k == i || self.ordered_before(k, i)) && !self.ordered_before(k, j) {
                let ghost mid = *self;
                let mut l: usize = 1;
                while l <= n
                    invariant
                        pre.shape(),
                        pre.strict_order(),
                        self.shape(),
                        self.high_id == pre.high_id == n,
                        n <= usize::MAX / 4,
                        1 <= k <= n,
                        1 <= l <= n + 1,
                        i != j,
                        pre.is_step(i as int),
                        pre.is_step(j as int),
                        !pre.ordered(j as int, i as int),
                        k == i || pre.ordered(k as int, i as int),
                        forall|a: int, b: int| #[trigger] self.ordered(a, b) <==> (pre.ordered(a, b) || ((a < k || (a == k && b < l))
                            && lifts(&pre, a, b, i as int, j as int))),
                    decreases n - l + 1,
                {
                    proof {
                        // j is not before i, so j's own row has not been lifted.
                        assert(!lifts(&pre, j as int, l as int, i as int, j as int));
                        assert(self.ordered(j as int, l as int) == pre.ordered(j as int, l as int));
                    }
                    if (j == l || self.ordered_before(j, l)) && !self.ordered_before(k, l) {
                        proof {
                            assert(k != l) by {
                                if k == l {
                                    assert(pre.ordered(j as int, i as int));
                                }
                            }
                        }
                        self.set_before(k, l);
                    }
                    l = l + 1;
                }
            } else {
                proof {
                    assert forall|b: int| lifts(&pre, k as int, b, i as int, j as int) implies pre.ordered(k as int, b) by {
                        assert(self.ordered(k as int, j as int));
                        assert(pre.ordered(k as int, j as int));
                        if b != j {
                            assert(pre.ordered(j as int, b));
                        }
                    }
                }
            }
            k = k + 1;
        }
        proof {
            assert(self.adds(&pre, i as int, j as int)) by {
                assert forall|a: int, b: int| #[trigger] self.ordered(a, b) <==> (pre.ordered(a, b) || lifts(
                    &pre,
                    a,
                    b,
                    i as int,
                    j as int,
                )) by {}
            }
            lemma_adds_strict(&pre, self, i as int, j as int);
        }
    }
}

/// The pairs of a transitively closed order after `i` before `j` has been added:
/// `i` and what comes before it then come before `j` and what comes after it.
pub open spec fn with_pair(order: Set<(int, int)>, i: int, j: int) -> Set<(int, int)> {
    Set::new(
        |p: (int, int)|
            order.contains(p) || ((p.0 == i || order.contains((p.0, i))) && (p.1 == j || order.contains((j, p.1)))),
    )
}

/// Whether step `a` precedes step `b` in every linearization, given the ordered
/// pairs of real steps.
pub open spec fn comes_before(order: Set<(int, int)>, a: int, b: int) -> bool {
    a != b && (a == 0 || b == GOAL_ID || order.contains((a, b)))
}

/// Whether step `a` precedes step `b` in some linearization.
pub open spec fn may_come_before(order: Set<(int, int)>, a: int, b: int) -> bool {
    a != b && !comes_before(order, b, a)
}

/// Whether a step id can be ordered: it is the initial or the goal step or fits
/// the tables.
pub open spec fn orderable(id: int) -> bool {
    id == 0 || id == GOAL_ID || 1 <= id <= usize::MAX / 4
}

/// The order with `i` before `j` added, or `None` if that would make a cycle or
/// the ids cannot be ordered.
pub open spec fn ordered_pair(order: Set<(int, int)>, i: int, j: int) -> Option<Set<(int, int)>> {
    if !orderable(i) || !orderable(j) || !may_come_before(order, i, j) {
        None
    } else if comes_before(order, i, j) {
        Some(order)
    } else {
        Some(with_pair(order, i, j))
    }
}

impl BinaryOrderings {
    /// Whether some linearization has `id1` before `id2`, for any two ids.
    pub fn may_order(&self, id1: usize, id2: usize) -> (res: bool)
        requires
            self.wf(),
        ensures
            res == may_come_before(self.pairs(), id1 as int, id2 as int),
    {
        assert(self.pairs().contains((id2 as int, id1 as int)) == self.ordered(id2 as int, id1 as int));
        if id1 == id2 {
            false
        } else if id1 == 0 || id2 == GOAL_ID {
            proof {
                assert(!self.ordered(id2 as int, id1 as int)) by {
                    if self.ordered(id2 as int, id1 as int) {
                        assert(self.is_step(id2 as int) && self.is_step(id1 as int));
                        assert(self.high() <= usize::MAX / 4);
                    }
                }
            }
            true
        } else if id1 == GOAL_ID || id2 == 0 {
            false
        } else if id1 <= self.high_id && id2 <= self.high_id {
            !self.ordered_before(id2, id1)
        } else {
            true
        }
    }

    /// The order with `before_id` before `after_id` added, for any two ids.
    pub fn with_order(self: &Rc<Self>, before_id: usize, after_id: usize) -> (res: Option<Rc<BinaryOrderings>>)
        requires
            self.wf(),
        ensures
            match ordered_pair(self.pairs(), before_id as int, after_id as int) {
                None => res is None,
                Some(order) => res matches Some(r) && r.wf() && r.pairs() == order,
            },
    {
        let limit = usize::MAX / 4;
        if (before_id > limit && before_id != GOAL_ID) || (after_id > limit && after_id != GOAL_ID) {
            return None;
        }
        if !self.may_order(before_id, after_id) {
            return None;
        }
        if before_id == 0 || after_id == GOAL_ID {
            return Some(self.clone());
        }
        proof {
            lemma_pairs(self);
            assert(before_id != GOAL_ID && after_id != 0);
        }
        let top = if before_id > after_id {
            before_id
        } else {
            after_id
        };
        let res = self.refine_with_step(
            StepOrder::new(before_id, StepTime::AtEnd, after_id, StepTime::AtStart),
            top,
        );
        proof {
            assert(self.pairs().contains((before_id as int, after_id as int)) == self.ordered(before_id as int, after_id as int));
            assert(self.pairs().contains((after_id as int, before_id as int)) == self.ordered(after_id as int, before_id as int));
            if res is Some {
                lemma_refined_pairs(&**self, &*res->0, before_id as int, after_id as int);
            }
        }
        res
    }
}

/// What [`BinaryOrderings::refine`] does to the ordered pairs.
pub proof fn lemma_refined_pairs(pre: &BinaryOrderings, post: &BinaryOrderings, i: int, j: int)
    ensures
        post.adds(pre, i, j) ==> post.pairs() == with_pair(pre.pairs(), i, j),
        post.same_order(pre) ==> post.pairs() == pre.pairs(),
{
    if post.adds(pre, i, j) {
        assert forall|p: (int, int)| #[trigger] post.pairs().contains(p) <==> with_pair(pre.pairs(), i, j).contains(p) by {
            assert(post.ordered(p.0, p.1) <==> (pre.ordered(p.0, p.1) || ((p.0 == i || pre.ordered(p.0, i)) && (p.1 == j
                || pre.ordered(j, p.1)))));
            assert(pre.pairs().contains((p.0, i)) == pre.ordered(p.0, i));
            assert(pre.pairs().contains((j, p.1)) == pre.ordered(j, p.1));
        }
        assert(post.pairs() =~= with_pair(pre.pairs(), i, j));
    }
    if post.same_order(pre) {
        assert(post.pairs() =~= pre.pairs());
    }
}

/// The ordered pairs are pairs of real steps, and no step comes before itself
/// or before one that comes before it.
pub proof fn lemma_pairs(o: &BinaryOrderings)
    requires
        o.wf(),
    ensures
        forall|p: (int, int)| #[trigger] o.pairs().contains(p) ==> o.is_step(p.0) && o.is_step(p.1) && p.0 != p.1,
        forall|a: int, b: int| o.pairs().contains((a, b)) ==> !(#[trigger] o.pairs().contains((b, a))),
        forall|a: int, b: int, c: int|
            #[trigger] o.pairs().contains((a, b)) && #[trigger] o.pairs().contains((b, c)) ==> o.pairs().contains((a, c)),
        o.high() <= usize::MAX / 4,
{
    assert forall|a: int, b: int| o.pairs().contains((a, b)) implies !(#[trigger] o.pairs().contains((b, a))) by {
        assert(o.ordered(a, b));
    }
    assert forall|a: int, b: int, c: int|
        #[trigger] o.pairs().contains((a, b)) && #[trigger] o.pairs().contains((b, c)) implies o.pairs().contains((a, c)) by {
        assert(o.ordered(a, b) && o.ordered(b, c));
    }
    assert forall|p: (int, int)| #[trigger] o.pairs().contains(p) implies o.is_step(p.0) && o.is_step(p.1) && p.0 != p.1 by {
        assert(o.ordered(p.0, p.1));
    }
}

/// `a` comes before `b` once `i` comes before `j`.
spec fn lifts(pre: &BinaryOrderings, a: int, b: int, i: int, j: int) -> bool {
    (a == i || pre.ordered(a, i)) && (b == j || pre.ordered(j, b))
}

proof fn lemma_adds_strict(pre: &BinaryOrderings, post: &BinaryOrderings, i: int, j: int)
    requires
        pre.strict_order(),
        post.adds(pre, i, j),
        i != j,
        !pre.ordered(j, i),
    ensures
        post.strict_order(),
{
    assert forall|a: int, b: int| #[trigger] post.ordered(a, b) implies !post.ordered(b, a) by {
        if post.ordered(b, a) {
            if pre.ordered(a, b) {
                if !pre.ordered(b, a) {
                    assert(pre.ordered(j, i));
                }
            } else {
                assert(pre.ordered(j, i) || i == j);
            }
        }
    }
    assert forall|a: int, b: int, c: int| #[trigger] post.ordered(a, b) && #[trigger] post.ordered(b, c) implies post.ordered(
        a,
        c,
    ) by {}
}

} // verus!
