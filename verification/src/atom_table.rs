//! Ground atoms with their heuristic values, found by predicate.
use vstd::prelude::*;

use crate::formula::{same_atom, Atom, AtomView};
use crate::hvalue::HeuristicValue;
use crate::predicates::Predicate;

verus! {

/// A table of atoms, each once, with their values.
#[derive(Debug)]
pub struct AtomTable {
    entries: Vec<(Atom, HeuristicValue)>,
    /// By predicate, the positions of its atoms in order.
    rows: Vec<Vec<usize>>,
}

/// The position of an atom in a list of atoms with values.
pub open spec fn place_of(table: Seq<(AtomView, HeuristicValue)>, a: AtomView) -> Option<int>
    decreases table.len(),
{
    if table.len() == 0 {
        None
    } else {
        match place_of(table.drop_last(), a) {
            Some(i) => Some(i),
            None => if table.last().0 == a {
                Some(table.len() - 1)
            } else {
                None
            },
        }
    }
}

/// The value of an atom, if the table has it.
pub open spec fn value_in(table: Seq<(AtomView, HeuristicValue)>, a: AtomView) -> Option<HeuristicValue> {
    match place_of(table, a) {
        Some(i) => Some(table[i].1),
        None => None,
    }
}

/// The table with the value of an atom set.
pub open spec fn with_value(table: Seq<(AtomView, HeuristicValue)>, a: AtomView, v: HeuristicValue) -> Seq<(AtomView, HeuristicValue)> {
    match place_of(table, a) {
        Some(i) => table.update(i, (a, v)),
        None => table.push((a, v)),
    }
}

/// Where an atom is found it stands, and nowhere before.
pub proof fn lemma_place(table: Seq<(AtomView, HeuristicValue)>, a: AtomView)
    ensures
        match place_of(table, a) {
            Some(i) => 0 <= i < table.len() && table[i].0 == a && forall|j: int| 0 <= j < i ==> (#[trigger] table[j]).0 != a,
            None => forall|j: int| 0 <= j < table.len() ==> (#[trigger] table[j]).0 != a,
        },
    decreases table.len(),
{
    if table.len() > 0 {
        let front = table.drop_last();
        lemma_place(front, a);
        assert forall|j: int| 0 <= j < front.len() implies #[trigger] table[j] == front[j] by {}
    }
}

/// What stands is found where it stands first.
pub proof fn lemma_at_place(table: Seq<(AtomView, HeuristicValue)>, a: AtomView, i: int)
    requires
        0 <= i < table.len(),
        table[i].0 == a,
        forall|j: int| 0 <= j < i ==> (#[trigger] table[j]).0 != a,
    ensures
        place_of(table, a) == Some(i),
{
    lemma_place(table, a);
    match place_of(table, a) {
        Some(k) => {
            if k < i {
                assert(table[k].0 != a);
            }
            if i < k {
                assert(table[i].0 != a);
            }
        },
        None => {
            assert(table[i].0 != a);
        },
    }
}

/// The atoms of a table, each with its value.
pub open spec fn entry_views(entries: Seq<(Atom, HeuristicValue)>) -> Seq<(AtomView, HeuristicValue)> {
    Seq::new(entries.len(), |i: int| (entries[i].0@, entries[i].1))
}

/// Whether no atom stands twice.
pub open spec fn distinct_atoms(table: Seq<(AtomView, HeuristicValue)>) -> bool {
    forall|i: int, j: int| 0 <= i < j < table.len() ==> (#[trigger] table[i]).0 != (#[trigger] table[j]).0
}

impl View for AtomTable {
    type V = Seq<(AtomView, HeuristicValue)>;

    closed spec fn view(&self) -> Seq<(AtomView, HeuristicValue)> {
        entry_views(self.entries@)
    }
}

impl AtomTable {
    /// Whether row `p` lists exactly the entries of its predicate, in order.
    spec fn row_ok(&self, p: int) -> bool {
        let row = self.rows@[p]@;
        &&& forall|k: int| 0 <= k < row.len() ==> (#[trigger] row[k]) < self.entries@.len() && self.entries@[row[k] as int].0.predicate.0 == p
        &&& forall|i: int| 0 <= i < self.entries@.len() && (#[trigger] self.entries@[i]).0.predicate.0 == p ==> row.contains(i as usize)
        &&& forall|k: int, m: int| 0 <= k < m < row.len() ==> (#[trigger] row[k]) < (#[trigger] row[m])
    }

    /// The table's invariant.
    pub closed spec fn wf(&self) -> bool {
        &&& distinct_atoms(self@)
        &&& forall|p: int| 0 <= p < self.rows@.len() ==> self.row_ok(p)
        &&& forall|i: int| 0 <= i < self.entries@.len() ==> (#[trigger] self.entries@[i]).0.predicate.0 < self.rows@.len()
    }

    /// What the invariant says of the atoms.
    pub proof fn lemma_wf(&self)
        requires
            self.wf(),
        ensures
            distinct_atoms(self@),
            self@.len() <= usize::MAX,
    {
        assert(self.entries.len() == self@.len());
    }

    pub fn new() -> (res: Self)
        ensures
            res.wf(),
            res@ == Seq::<(AtomView, HeuristicValue)>::empty(),
    {
        let res = AtomTable { entries: Vec::new(), rows: Vec::new() };
        assert(res@ =~= Seq::empty());
        res
    }

    pub fn len(&self) -> (res: usize)
        ensures
            res == self@.len(),
    {
        self.entries.len()
    }

    /// The atom at a position.
    pub fn atom(&self, i: usize) -> (res: &Atom)
        requires
            i < self@.len(),
        ensures
            res@ == self@[i as int].0,
    {
        &self.entries[i].0
    }

    /// The value at a position.
    pub fn value(&self, i: usize) -> (res: HeuristicValue)
        requires
            i < self@.len(),
        ensures
            res == self@[i as int].1,
    {
        self.entries[i].1
    }

    /// The positions of the atoms of a predicate, in order.
    pub fn row(&self, p: Predicate) -> (res: Vec<usize>)
        requires
            self.wf(),
        ensures
            forall|k: int| 0 <= k < res@.len() ==> (#[trigger] res@[k]) < self@.len() && self@[res@[k] as int].0.predicate == p,
            forall|i: int| 0 <= i < self@.len() && (#[trigger] self@[i]).0.predicate == p ==> res@.contains(i as usize),
            forall|k: int, m: int| 0 <= k < m < res@.len() ==> (#[trigger] res@[k]) < (#[trigger] res@[m]),
    {
        let i = p.0 as usize;
        if i < self.rows.len() {
            assert(self.row_ok(i as int));
            let res = crate::text::copy_vec(&self.rows[i]);
            proof {
                assert forall|k: int| 0 <= k < self@.len() && (#[trigger] self@[k]).0.predicate == p implies res@.contains(k as usize) by {
                    assert(self.entries@[k].0.predicate.0 == i);
                }
            }
            res
        } else {
            let res: Vec<usize> = Vec::new();
            proof {
                assert forall|k: int| 0 <= k < self@.len() && (#[trigger] self@[k]).0.predicate == p implies res@.contains(k as usize) by {
                    assert(self.entries@[k].0.predicate.0 < self.rows@.len());
                }
            }
            res
        }
    }

    /// Finds an atom.
    pub fn find(&self, a: &Atom) -> (res: Option<usize>)
        requires
            self.wf(),
        ensures
            match place_of(self@, a@) {
                Some(i) => res matches Some(k) && k == i && k < self@.len(),
                None => res is None,
            },
    {
        let p = a.predicate.0 as usize;
        proof {
            lemma_place(self@, a@);
        }
        if p >= self.rows.len() {
            proof {
                if place_of(self@, a@) is Some {
                    let i = place_of(self@, a@)->0;
                    assert(self.entries@[i].0.predicate.0 < self.rows@.len());
                    assert(self@[i].0.predicate == a.predicate);
                }
            }
            return None;
        }
        assert(self.row_ok(p as int));
        let row = &self.rows[p];
        let mut k: usize = 0;
        while k < row.len()
            invariant
                self.wf(),
                p < self.rows@.len(),
                self.row_ok(p as int),
                row@ == self.rows@[p as int]@,
                p == a.predicate.0,
                k <= row@.len(),
                forall|m: int| 0 <= m < k ==> self@[(#[trigger] row@[m]) as int].0 != a@,
            decreases row@.len() - k,
        {
            let i = row[k];
            assert(row@[k as int] < self.entries@.len());
            if same_atom(&self.entries[i].0, a) {
                proof {
                    assert(self@[i as int].0 == a@);
                    assert forall|j: int| 0 <= j < i implies (#[trigger] self@[j]).0 != a@ by {
                        assert(self@[j].0 != self@[i as int].0);
                    }
                    lemma_at_place(self@, a@, i as int);
                }
                return Some(i);
            }
            k = k + 1;
        }
        proof {
            if place_of(self@, a@) is Some {
                let i = place_of(self@, a@)->0;
                lemma_place(self@, a@);
                assert(self@[i].0 == a@);
                assert(self.entries@[i].0.predicate.0 == p);
                assert(self.entries.len() == self@.len());
                let m = choose|m: int| 0 <= m < row@.len() && row@[m] == i as usize;
                assert(self@[row@[m] as int].0 != a@);
            }
        }
        None
    }

    /// The value of an atom, if the table has it.
    pub fn get(&self, a: &Atom) -> (res: Option<HeuristicValue>)
        requires
            self.wf(),
        ensures
            res == value_in(self@, a@),
    {
        match self.find(a) {
            Some(i) => Some(self.entries[i].1),
            None => None,
        }
    }

    /// Makes room for a predicate's row.
    fn reach(&mut self, p: usize)
        requires
            old(self).wf(),
        ensures
            final(self).wf(),
            final(self)@ == old(self)@,
            final(self).entries@ == old(self).entries@,
            p < final(self).rows@.len(),
    {
        while self.rows.len() <= p
            invariant
                self.wf(),
                self@ == old(self)@,
                self.entries@ == old(self).entries@,
            decreases p + 1 - self.rows@.len(),
        {
            let ghost before = *self;
            self.rows.push(Vec::new());
            proof {
                assert forall|q: int| 0 <= q < self.rows@.len() implies self.row_ok(q) by {
                    if q < before.rows@.len() {
                        assert(before.row_ok(q));
                        assert(self.rows@[q] == before.rows@[q]);
                    } else {
                        assert forall|i: int| 0 <= i < self.entries@.len() implies (#[trigger] self.entries@[i]).0.predicate.0 != q by {
                            assert(before.entries@[i].0.predicate.0 < before.rows@.len());
                        }
                    }
                }
                assert forall|i: int| 0 <= i < self.entries@.len() implies (#[trigger] self.entries@[i]).0.predicate.0 < self.rows@.len() by {
                    assert(before.entries@[i].0.predicate.0 < before.rows@.len());
                }
            }
        }
    }

    /// Sets the value of an atom.
    pub fn set(&mut self, a: &Atom, v: HeuristicValue)
        requires
            old(self).wf(),
        ensures
            final(self).wf(),
            final(self)@ == with_value(old(self)@, a@, v),
    {
        match self.find(a) {
            Some(i) => {
                let ghost before = *self;
                let copy = a.clone();
                proof {
                    lemma_place(self@, a@);
                }
                self.entries.set(i, (copy, v));
                proof {
                    assert(self@ =~= before@.update(i as int, (a@, v)));
                    assert(before.entries@[i as int].0@ == a@);
                    assert forall|j: int| 0 <= j < self.entries@.len() implies (#[trigger] self.entries@[j]).0.predicate
                        == before.entries@[j].0.predicate by {
                        if j == i {
                            assert(self.entries@[j].0@.predicate == before.entries@[j].0@.predicate);
                        }
                    }
                    assert forall|q: int| 0 <= q < self.rows@.len() implies self.row_ok(q) by {
                        assert(before.row_ok(q));
                        assert forall|j: int| 0 <= j < self.entries@.len() && (#[trigger] self.entries@[j]).0.predicate.0 == q implies self.rows@[q]@.contains(
                            j as usize,
                        ) by {
                            assert(before.entries@[j].0.predicate.0 == q);
                        }
                        assert forall|k: int| 0 <= k < self.rows@[q]@.len() implies (#[trigger] self.rows@[q]@[k]) < self.entries@.len()
                            && self.entries@[self.rows@[q]@[k] as int].0.predicate.0 == q by {
                            assert(before.rows@[q]@[k] < before.entries@.len());
                        }
                    }
                    assert forall|x: int, y: int| 0 <= x < y < self@.len() implies (#[trigger] self@[x]).0 != (#[trigger] self@[y]).0 by {
                        assert(before@[x].0 != before@[y].0);
                        assert(self@[x].0 == before@[x].0);
                        assert(self@[y].0 == before@[y].0);
                    }
                    assert forall|j: int| 0 <= j < self.entries@.len() implies (#[trigger] self.entries@[j]).0.predicate.0 < self.rows@.len() by {
                        assert(before.entries@[j].0.predicate.0 < before.rows@.len());
                    }
                }
            },
            None => {
                let p = a.predicate.0 as usize;
                self.reach(p);
                let ghost before = *self;
                let n = self.entries.len();
                self.entries.push((a.clone(), v));
                self.rows[p].push(n);
                proof {
                    assert(self@ =~= before@.push((a@, v)));
                    lemma_place(before@, a@);
                    assert forall|q: int| 0 <= q < self.rows@.len() implies self.row_ok(q) by {
                        assert(before.row_ok(q));
                        let row = self.rows@[q]@;
                        let old_row = before.rows@[q]@;
                        if q == p {
                            assert(row =~= old_row.push(n));
                        } else {
                            assert(row == old_row);
                        }
                        assert forall|k: int| 0 <= k < row.len() implies (#[trigger] row[k]) < self.entries@.len() && self.entries@[row[k] as int].0.predicate.0 == q by {
                            if k < old_row.len() {
                                assert(row[k] == old_row[k]);
                                assert(old_row[k] < before.entries@.len());
                                assert(self.entries@[row[k] as int] == before.entries@[old_row[k] as int]);
                            }
                        }
                        assert forall|i: int| 0 <= i < self.entries@.len() && (#[trigger] self.entries@[i]).0.predicate.0 == q implies row.contains(
                            i as usize,
                        ) by {
                            if i < n {
                                assert(self.entries@[i] == before.entries@[i]);
                                assert(old_row.contains(i as usize));
                                let k = choose|k: int| 0 <= k < old_row.len() && old_row[k] == i as usize;
                                assert(row[k] == i as usize);
                            } else {
                                assert(row[row.len() - 1] == n);
                            }
                        }
                        assert forall|k: int, m: int| 0 <= k < m < row.len() implies (#[trigger] row[k]) < (#[trigger] row[m]) by {
                            if m < old_row.len() {
                                assert(row[k] == old_row[k] && row[m] == old_row[m]);
                            } else {
                                assert(row[k] == old_row[k]);
                                assert(old_row[k] < before.entries@.len());
                            }
                        }
                    }
                    assert forall|x: int, y: int| 0 <= x < y < self@.len() implies (#[trigger] self@[x]).0 != (#[trigger] self@[y]).0 by {
                        if y < n {
                            assert(before@[x].0 != before@[y].0);
                            assert(self@[x] == before@[x] && self@[y] == before@[y]);
                        } else {
                            assert(self@[x] == before@[x]);
                            assert(before@[x].0 != a@);
                        }
                    }
                    assert forall|j: int| 0 <= j < self.entries@.len() implies (#[trigger] self.entries@[j]).0.predicate.0 < self.rows@.len() by {
                        if j < n {
                            assert(before.entries@[j].0.predicate.0 < before.rows@.len());
                        }
                    }
                }
            },
        }
    }

    /// A copy of the table.
    pub fn copy(&self) -> (res: Self)
        requires
            self.wf(),
        ensures
            res.wf(),
            res@ == self@,
    {
        let mut res = AtomTable::new();
        let mut i: usize = 0;
        while i < self.entries.len()
            invariant
                self.wf(),
                res.wf(),
                i <= self.entries@.len(),
                res@ == self@.take(i as int),
            decreases self.entries@.len() - i,
        {
            let ghost before = res@;
            proof {
                lemma_place(before, self@[i as int].0);
                if place_of(before, self@[i as int].0) is Some {
                    let k = place_of(before, self@[i as int].0)->0;
                    assert(before[k] == self@[k]);
                    assert(self@[k].0 != self@[i as int].0);
                }
            }
            res.set(&self.entries[i].0, self.entries[i].1);
            assert(self@.take(i + 1) =~= self@.take(i as int).push(self@[i as int]));
            i = i + 1;
        }
        assert(self@.take(i as int) =~= self@);
        res
    }
}

} // verus!
