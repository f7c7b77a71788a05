//! Ranked queues of partial plans.
use std::rc::Rc;

use vstd::multiset::Multiset;
use vstd::prelude::*;

use crate::fdr_plan::{PartialPlan, PlanView};

verus! {

/// The rank at position `i`; a missing one counts as zero.
pub open spec fn rank_at(rank: Seq<i128>, i: int) -> i128 {
    if 0 <= i < rank.len() {
        rank[i]
    } else {
        0
    }
}

/// The ranks agree before position `i`, where `a` is smaller.
pub open spec fn smaller_at(a: Seq<i128>, b: Seq<i128>, i: int) -> bool {
    &&& 0 <= i
    &&& rank_at(a, i) < rank_at(b, i)
    &&& forall|j: int| 0 <= j < i ==> #[trigger] rank_at(a, j) == rank_at(b, j)
}

/// `a` comes before `b` in lexicographic order.
pub open spec fn rank_less(a: Seq<i128>, b: Seq<i128>) -> bool {
    exists|i: int| #[trigger] smaller_at(a, b, i)
}

proof fn lemma_less_transitive(a: Seq<i128>, b: Seq<i128>, c: Seq<i128>)
    requires
        rank_less(a, b),
        rank_less(b, c),
    ensures
        rank_less(a, c),
{
    let i = choose|i: int| smaller_at(a, b, i);
    let j = choose|j: int| smaller_at(b, c, j);
    let m = if i < j {
        i
    } else {
        j
    };
    assert(smaller_at(a, c, m)) by {
        assert forall|k: int| 0 <= k < m implies #[trigger] rank_at(a, k) == rank_at(c, k) by {
            assert(rank_at(a, k) == rank_at(b, k));
            assert(rank_at(b, k) == rank_at(c, k));
        }
        assert(rank_at(a, m) <= rank_at(b, m));
        assert(rank_at(b, m) <= rank_at(c, m));
    }
}

/// Neither comes before the other: they agree up to position `n`.
proof fn lemma_same_ranks(a: Seq<i128>, b: Seq<i128>, n: nat)
    requires
        !rank_less(a, b),
        !rank_less(b, a),
    ensures
        forall|i: int| 0 <= i < n ==> #[trigger] rank_at(a, i) == rank_at(b, i),
    decreases n,
{
    if n > 0 {
        lemma_same_ranks(a, b, (n - 1) as nat);
        if rank_at(a, n - 1) < rank_at(b, n - 1) {
            assert(smaller_at(a, b, n - 1));
        }
        if rank_at(b, n - 1) < rank_at(a, n - 1) {
            assert(smaller_at(b, a, n - 1));
        }
    }
}

/// `b` does not come before `a`, nor `c` before `b`: `c` does not come before `a`.
pub proof fn lemma_not_after(a: Seq<i128>, b: Seq<i128>, c: Seq<i128>)
    requires
        !rank_less(b, a),
        !rank_less(c, b),
    ensures
        !rank_less(c, a),
{
    if rank_less(c, a) {
        if rank_less(a, b) {
            lemma_less_transitive(c, a, b);
        } else {
            let i = choose|i: int| smaller_at(c, a, i);
            lemma_same_ranks(a, b, (i + 1) as nat);
            assert(smaller_at(c, b, i)) by {
                assert(rank_at(a, i) == rank_at(b, i));
                assert forall|k: int| 0 <= k < i implies #[trigger] rank_at(c, k) == rank_at(b, k) by {
                    assert(rank_at(a, k) == rank_at(b, k));
                }
            }
        }
    }
}

/// A rank does not come before a rank that comes before it.
pub proof fn lemma_less_asymmetric(a: Seq<i128>, b: Seq<i128>)
    requires
        rank_less(a, b),
    ensures
        !rank_less(b, a),
{
    if rank_less(b, a) {
        let i = choose|i: int| smaller_at(a, b, i);
        let j = choose|j: int| smaller_at(b, a, j);
        if i < j {
            assert(rank_at(b, i) == rank_at(a, i));
        } else if j < i {
            assert(rank_at(a, j) == rank_at(b, j));
        }
    }
}

/// Whether `a` comes before `b`.
pub fn rank_before(a: &Vec<i128>, b: &Vec<i128>) -> (res: bool)
    ensures
        res == rank_less(a@, b@),
{
    let n = if a.len() > b.len() {
        a.len()
    } else {
        b.len()
    };
    let mut i: usize = 0;
    while i < n
        invariant
            n == (if a@.len() > b@.len() {
                a@.len()
            } else {
                b@.len()
            }),
            i <= n,
            forall|j: int| 0 <= j < i ==> #[trigger] rank_at(a@, j) == rank_at(b@, j),
        decreases n - i,
    {
        let left: i128 = if i < a.len() {
            a[i]
        } else {
            0
        };
        let right: i128 = if i < b.len() {
            b[i]
        } else {
            0
        };
        if left < right {
            assert(smaller_at(a@, b@, i as int));
            return true;
        }
        if left > right {
            proof {
                assert(smaller_at(b@, a@, i as int));
                lemma_less_asymmetric(b@, a@);
            }
            return false;
        }
        i = i + 1;
    }
    proof {
        if rank_less(a@, b@) {
            let k = choose|k: int| smaller_at(a@, b@, k);
            assert(rank_at(a@, k) == rank_at(b@, k));
        }
    }
    false
}

/// A plan that waits for its expansion.
#[derive(Debug)]
pub struct QueuedPlan {
    pub plan: Rc<PartialPlan>,
    pub rank: Vec<i128>,
    /// The rank stands in for one that has not been computed.
    pub is_lazy: bool,
}

/// A waiting plan with its number and rank.
#[verifier::ext_equal]
pub struct Entry {
    pub plan: PlanView,
    pub id: usize,
    pub rank: Seq<i128>,
    /// The rank stands in for one that has not been computed.
    pub is_lazy: bool,
}

pub open spec fn entry_of(item: QueuedPlan) -> Entry {
    Entry { plan: item.plan@, id: item.plan.id, rank: item.rank@, is_lazy: item.is_lazy }
}

pub open spec fn shared_entry(item: Rc<QueuedPlan>) -> Entry {
    entry_of(*item)
}

/// Whether no waiting plan comes before an entry, which waits.
pub open spec fn is_least(waiting: Multiset<Entry>, e: Entry) -> bool {
    waiting.contains(e) && forall|x: Entry| #[trigger] waiting.contains(x) ==> !rank_less(x.rank, e.rank)
}

spec fn entries_of(items: Seq<Rc<QueuedPlan>>) -> Seq<Entry> {
    items.map_values(|x: Rc<QueuedPlan>| entry_of(*x))
}

/// Lists of the same items have the same entries.
proof fn lemma_entries(a: Seq<Rc<QueuedPlan>>, b: Seq<Rc<QueuedPlan>>)
    requires
        a.to_multiset() == b.to_multiset(),
    ensures
        entries_of(a).to_multiset() == entries_of(b).to_multiset(),
    decreases a.len(),
{
    broadcast use vstd::seq_lib::group_to_multiset_ensures;

    if a.len() == 0 {
        assert(a.to_multiset().len() == 0);
        assert(b.to_multiset().len() == b.len());
        assert(entries_of(a) =~= entries_of(b));
    } else {
        let x = a.last();
        let front = a.drop_last();
        assert(a =~= front.push(x));
        assert(a.contains(x));
        assert(b.to_multiset().contains(x));
        assert(b.contains(x));
        let j = choose|j: int| 0 <= j < b.len() && b[j] == x;
        let rest = b.remove(j);
        assert(rest.to_multiset() =~= b.to_multiset().remove(x));
        assert(front.to_multiset() =~= a.to_multiset().remove(x));
        lemma_entries(front, rest);
        let e = entries_of(a).last();
        assert(entries_of(a) =~= entries_of(front).push(e));
        let mapped = entries_of(b);
        assert(mapped.remove(j) =~= entries_of(rest));
        assert(mapped[j] == e);
        assert(entries_of(rest).to_multiset() =~= mapped.to_multiset().remove(e));
        assert(mapped.contains(e));
        assert(mapped.to_multiset() =~= entries_of(rest).to_multiset().insert(e));
    }
}

/// A plan with a stand-in rank may come up twice.
pub open spec fn turns(item: QueuedPlan) -> nat {
    if item.is_lazy {
        2
    } else {
        1
    }
}

/// How often the items may come up.
spec fn all_turns(items: Seq<Rc<QueuedPlan>>) -> nat
    decreases items.len(),
{
    if items.len() == 0 {
        0
    } else {
        all_turns(items.drop_last()) + turns(*items.last())
    }
}

proof fn lemma_turns_update(items: Seq<Rc<QueuedPlan>>, i: int, x: Rc<QueuedPlan>)
    requires
        0 <= i < items.len(),
    ensures
        all_turns(items.update(i, x)) == all_turns(items) - turns(*items[i]) + turns(*x),
    decreases items.len(),
{
    let after = items.update(i, x);
    if i == items.len() - 1 {
        assert(after.drop_last() =~= items.drop_last());
    } else {
        lemma_turns_update(items.drop_last(), i, x);
        assert(after.drop_last() =~= items.drop_last().update(i, x));
    }
}

/// A binary heap of plans, the smallest rank first.
#[derive(Debug)]
pub struct PlanQueue {
    items: Vec<Rc<QueuedPlan>>,
}

spec fn ranked(items: Seq<Rc<QueuedPlan>>, i: int) -> Seq<i128> {
    items[i].rank@
}

/// No item comes before the one above it.
spec fn heaped(items: Seq<Rc<QueuedPlan>>) -> bool {
    forall|i: int| 0 < i < items.len() ==> !rank_less(#[trigger] ranked(items, i), ranked(items, (i - 1) / 2))
}

spec fn swapped(items: Seq<Rc<QueuedPlan>>, i: int, j: int) -> Seq<Rc<QueuedPlan>> {
    items.update(i, items[j]).update(j, items[i])
}

proof fn lemma_swapped(items: Seq<Rc<QueuedPlan>>, i: int, j: int)
    requires
        0 <= i < items.len(),
        0 <= j < items.len(),
    ensures
        swapped(items, i, j).to_multiset() == items.to_multiset(),
        all_turns(swapped(items, i, j)) == all_turns(items),
{
    lemma_turns_update(items, i, items[j]);
    lemma_turns_update(items.update(i, items[j]), j, items[i]);
    broadcast use vstd::seq_lib::group_to_multiset_ensures;

    let a = items.update(i, items[j]);
    let b = swapped(items, i, j);
    assert(a.to_multiset() =~= items.to_multiset().insert(items[j]).remove(items[i])) by {
        vstd::seq_lib::to_multiset_update(items, i, items[j]);
    }
    assert(b.to_multiset() =~= a.to_multiset().insert(items[i]).remove(a[j])) by {
        vstd::seq_lib::to_multiset_update(a, j, items[i]);
    }
    assert(items.contains(items[i]));
    assert(items.to_multiset().count(items[i]) > 0);
    assert(b.to_multiset() =~= items.to_multiset());
}

/// The first item comes first.
proof fn lemma_first(items: Seq<Rc<QueuedPlan>>, i: int)
    requires
        heaped(items),
        0 <= i < items.len(),
    ensures
        !rank_less(ranked(items, i), ranked(items, 0)),
    decreases i,
{
    if i > 0 {
        lemma_first(items, (i - 1) / 2);
        assert(!rank_less(ranked(items, i), ranked(items, (i - 1) / 2)));
        lemma_not_after(ranked(items, 0), ranked(items, (i - 1) / 2), ranked(items, i));
    } else if rank_less(ranked(items, 0), ranked(items, 0)) {
        lemma_less_asymmetric(ranked(items, 0), ranked(items, 0));
    }
}

impl PlanQueue {
    /// The waiting plans.
    pub closed spec fn contents(&self) -> Multiset<Rc<QueuedPlan>> {
        self.items@.to_multiset()
    }

    /// The waiting plans with their numbers and ranks.
    pub closed spec fn entries(&self) -> Multiset<Entry> {
        entries_of(self.items@).to_multiset()
    }

    pub closed spec fn wf(&self) -> bool {
        heaped(self.items@)
    }

    /// How often the waiting plans may come up.
    pub closed spec fn load(&self) -> nat {
        all_turns(self.items@)
    }

    pub fn new() -> (res: Self)
        ensures
            res.wf(),
            res.contents() == Multiset::<Rc<QueuedPlan>>::empty(),
            res.entries() == Multiset::<Entry>::empty(),
            res.load() == 0,
    {
        let res = PlanQueue { items: Vec::new() };
        proof {
            broadcast use vstd::seq_lib::group_to_multiset_ensures;

            assert(res.items@.to_multiset() =~= Multiset::empty());
            assert(entries_of(res.items@) =~= Seq::empty());
            assert(entries_of(res.items@).to_multiset() =~= Multiset::empty());
        }
        res
    }

    pub fn is_empty(&self) -> (res: bool)
        ensures
            res == (self.contents().len() == 0),
    {
        proof {
            broadcast use vstd::seq_lib::group_to_multiset_ensures;

        }
        self.items.len() == 0
    }

    fn swap(&mut self, i: usize, j: usize)
        requires
            i < old(self).items@.len(),
            j < old(self).items@.len(),
        ensures
            final(self).items@ == swapped(old(self).items@, i as int, j as int),
            final(self).items@.to_multiset() == old(self).items@.to_multiset(),
            all_turns(final(self).items@) == all_turns(old(self).items@),
    {
        proof {
            lemma_swapped(self.items@, i as int, j as int);
        }
        let a = Rc::clone(&self.items[i]);
        let b = Rc::clone(&self.items[j]);
        self.items.set(i, b);
        self.items.set(j, a);
    }

    /// Adds a plan.
    pub fn push(&mut self, item: QueuedPlan)
        requires
            old(self).wf(),
        ensures
            final(self).wf(),
            final(self).contents() == old(self).contents().insert(Rc::new(item)),
            final(self).entries() == old(self).entries().insert(entry_of(item)),
            final(self).load() == old(self).load() + turns(item),
    {
        broadcast use vstd::seq_lib::group_to_multiset_ensures;

        let ghost start = self.items@;
        let mut at: usize = self.items.len();
        self.items.push(Rc::new(item));
        let ghost goal = self.items@.to_multiset();
        let ghost sum = all_turns(self.items@);
        let ghost pushed = self.items@;
        proof {
            assert(self.items@.drop_last() =~= start);
            assert(entries_of(pushed) =~= entries_of(start).push(entry_of(item)));
            assert(goal =~= start.to_multiset().insert(Rc::new(item)));
            assert forall|i: int| 0 < i < self.items@.len() && i != at implies !rank_less(
                #[trigger] ranked(self.items@, i),
                ranked(self.items@, (i - 1) / 2),
            ) by {
                assert(ranked(start, i) == ranked(self.items@, i));
                assert(ranked(start, (i - 1) / 2) == ranked(self.items@, (i - 1) / 2));
            }
        }
        while at > 0
            invariant
                at < self.items@.len(),
                self.items@.to_multiset() == goal,
                all_turns(self.items@) == sum,
                forall|i: int|
                    0 < i < self.items@.len() && i != at ==> !rank_less(
                        #[trigger] ranked(self.items@, i),
                        ranked(self.items@, (i - 1) / 2),
                    ),
                forall|i: int|
                    0 < i < self.items@.len() && at > 0 && (i - 1) / 2 == at ==> !rank_less(
                        #[trigger] ranked(self.items@, i),
                        ranked(self.items@, (at - 1) / 2),
                    ),
            ensures
                heaped(self.items@),
                self.items@.to_multiset() == goal,
                all_turns(self.items@) == sum,
            decreases at,
        {
            let up: usize = (at - 1) / 2;
            let ghost before = self.items@;
            if !rank_before(&self.items[at].rank, &self.items[up].rank) {
                break;
            }
            self.swap(at, up);
            proof {
                lemma_less_asymmetric(ranked(before, at as int), ranked(before, up as int));
                assert forall|i: int| 0 < i < self.items@.len() && i != up implies !rank_less(
                    #[trigger] ranked(self.items@, i),
                    ranked(self.items@, (i - 1) / 2),
                ) by {
                    let above = (i - 1) / 2;
                    if i == at {
                    } else if above == at {
                        assert(!rank_less(ranked(before, i), ranked(before, (at - 1) / 2)));
                    } else if above == up {
                        assert(!rank_less(ranked(before, i), ranked(before, up as int)));
                        lemma_not_after(ranked(before, at as int), ranked(before, up as int), ranked(before, i));
                    } else {
                        assert(!rank_less(ranked(before, i), ranked(before, above)));
                    }
                }
                assert forall|i: int| 0 < i < self.items@.len() && up > 0 && (i - 1) / 2 == up implies !rank_less(
                    #[trigger] ranked(self.items@, i),
                    ranked(self.items@, (up - 1) / 2),
                ) by {
                    let top = (up - 1) / 2;
                    assert(!rank_less(ranked(before, up as int), ranked(before, top)));
                    if i != at {
                        assert(!rank_less(ranked(before, i), ranked(before, up as int)));
                        lemma_not_after(ranked(before, top), ranked(before, up as int), ranked(before, i));
                    }
                }
            }
            at = up;
        }
        proof {
            lemma_entries(self.items@, pushed);
            assert(self.entries() =~= entries_of(start).to_multiset().insert(entry_of(item)));
        }
    }

    /// Takes out a plan whose rank no other plan's rank comes before.
    pub fn pop(&mut self) -> (res: Option<Rc<QueuedPlan>>)
        requires
            old(self).wf(),
        ensures
            final(self).wf(),
            match res {
                Some(item) => {
                    &&& old(self).contents().contains(item)
                    &&& final(self).contents() == old(self).contents().remove(item)
                    &&& final(self).load() + turns(*item) == old(self).load()
                    &&& is_least(old(self).entries(), entry_of(*item))
                    &&& final(self).entries() == old(self).entries().remove(entry_of(*item))
                },
                None => old(self).contents().len() == 0 && old(self).entries().len() == 0 && *final(self) == *old(self),
            },
    {
        broadcast use vstd::seq_lib::group_to_multiset_ensures;

        let ghost start = self.items@;
        if self.items.len() == 0 {
            return None;
        }
        proof {
            let all = entries_of(start);
            assert forall|e: Entry| #[trigger] all.to_multiset().contains(e) implies !rank_less(e.rank, start[0].rank@) by {
                assert(all.contains(e));
                let i = choose|i: int| 0 <= i < all.len() && all[i] == e;
                lemma_first(start, i);
            }
            assert(start.contains(start[0]));
            assert(all[0] == entry_of(*start[0]));
            assert(all.contains(all[0]));
        }
        let last: usize = self.items.len() - 1;
        self.swap(0, last);
        let ghost moved = self.items@;
        let item = self.items.pop().unwrap();
        let ghost goal = self.items@.to_multiset();
        let ghost sum = all_turns(self.items@);
        proof {
            assert(self.items@ =~= moved.drop_last());
            assert(item == start[0]);
            assert(moved =~= self.items@.push(item));
            assert(moved.to_multiset() =~= goal.insert(item));
            assert(goal =~= start.to_multiset().remove(item));
            assert forall|i: int| 0 < i < self.items@.len() && (i - 1) / 2 != 0 implies !rank_less(
                #[trigger] ranked(self.items@, i),
                ranked(self.items@, (i - 1) / 2),
            ) by {
                assert(ranked(self.items@, i) == ranked(start, i));
                assert(ranked(self.items@, (i - 1) / 2) == ranked(start, (i - 1) / 2));
            }
        }
        let n = self.items.len();
        let mut at: usize = 0;
        while at < n / 2
            invariant
                n == self.items@.len(),
                self.items@.to_multiset() == goal,
                all_turns(self.items@) == sum,
                at <= n,
                forall|i: int|
                    0 < i < n && (i - 1) / 2 != at ==> !rank_less(#[trigger] ranked(self.items@, i), ranked(self.items@, (i - 1) / 2)),
                forall|i: int|
                    0 < i < n && (i - 1) / 2 == at && at > 0 ==> !rank_less(
                        #[trigger] ranked(self.items@, i),
                        ranked(self.items@, (at - 1) / 2),
                    ),
            ensures
                heaped(self.items@),
                self.items@.to_multiset() == goal,
                all_turns(self.items@) == sum,
            decreases n - at,
        {
            let ghost before = self.items@;
            let left: usize = 2 * at + 1;
            let right: usize = left + 1;
            let low = if right < n && rank_before(&self.items[right].rank, &self.items[left].rank) {
                right
            } else {
                left
            };
            proof {
                if low == right {
                    lemma_less_asymmetric(ranked(before, right as int), ranked(before, left as int));
                }
                if rank_less(ranked(before, low as int), ranked(before, low as int)) {
                    lemma_less_asymmetric(ranked(before, low as int), ranked(before, low as int));
                }
                assert forall|i: int| 0 < i < n && (i - 1) / 2 == at implies !rank_less(
                    #[trigger] ranked(before, i),
                    ranked(before, low as int),
                ) by {
                    assert(i == left || i == right);
                }
            }
            if !rank_before(&self.items[low].rank, &self.items[at].rank) {
                proof {
                    assert forall|i: int| 0 < i < self.items@.len() implies !rank_less(
                        #[trigger] ranked(self.items@, i),
                        ranked(self.items@, (i - 1) / 2),
                    ) by {
                        if (i - 1) / 2 == at {
                            lemma_not_after(ranked(before, at as int), ranked(before, low as int), ranked(before, i));
                        }
                    }
                }
                break;
            }
            self.swap(at, low);
            proof {
                lemma_less_asymmetric(ranked(before, low as int), ranked(before, at as int));
                assert forall|i: int| 0 < i < n && (i - 1) / 2 != low implies !rank_less(
                    #[trigger] ranked(self.items@, i),
                    ranked(self.items@, (i - 1) / 2),
                ) by {
                    let above = (i - 1) / 2;
                    if above == at {
                        if i == low {
                        } else {
                            assert(!rank_less(ranked(before, i), ranked(before, low as int)));
                        }
                    } else if i == at {
                        assert(!rank_less(ranked(before, low as int), ranked(before, (at - 1) / 2)));
                    } else {
                        assert(!rank_less(ranked(before, i), ranked(before, above)));
                    }
                }
                assert forall|i: int| 0 < i < n && (i - 1) / 2 == low implies !rank_less(
                    #[trigger] ranked(self.items@, i),
                    ranked(self.items@, (low - 1) / 2),
                ) by {
                    assert(!rank_less(ranked(before, i), ranked(before, low as int)));
                }
            }
            at = low;
        }
        proof {
            lemma_entries(self.items@, moved.drop_last());
            lemma_entries(moved, start);
            let rest = entries_of(moved.drop_last());
            assert(entries_of(moved) =~= rest.push(entry_of(*item)));
            assert(self.entries() =~= entries_of(start).to_multiset().remove(entry_of(*item)));
        }
        Some(item)
    }
}

} // verus!
