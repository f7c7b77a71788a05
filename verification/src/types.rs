//! PDDL types and the type table.
//!
//! A simple type has a name and a set of supertypes, kept transitively closed. A
//! union type (`either`) has simple components and no name. Every type is a
//! subtype of `object`.
use vstd::prelude::*;

use crate::names::{copy_names, find_name, position_of, spellings};
use crate::text::copy_vec;

verus! {

/// A type. Wraps an index into a [`Types`] table.
#[derive(Debug, Clone, Copy, PartialEq, Eq, PartialOrd, Ord, Hash, Structural)]
pub struct Type(pub u32);

/// The number of the type `object`.
pub const OBJECT: u32 = 0;

/// What the table holds on one type: the name of a simple type, the components of
/// a union, all supertypes and the ones that were declared.
#[verifier::ext_equal]
pub struct TypeView {
    pub name: Seq<char>,
    pub components: Seq<Type>,
    pub supers: Seq<Type>,
    pub direct: Seq<Type>,
}

/// The simple types that make up a type: its components, or itself.
pub open spec fn parts(table: Seq<TypeView>, t: Type) -> Seq<Type> {
    if table[t.0 as int].components.len() > 0 {
        table[t.0 as int].components
    } else {
        seq![t]
    }
}

/// Whether the simple type `q` is `p`, one of its supertypes, or `object`.
pub open spec fn at_or_above(table: Seq<TypeView>, p: Type, q: Type) -> bool {
    p == q || q.0 == OBJECT || table[p.0 as int].supers.contains(q)
}

/// Whether the simple type `p` is, or is declared below, a part of `t` or `t`
/// itself.
pub open spec fn part_below(table: Seq<TypeView>, p: Type, t: Type) -> bool {
    ||| table[p.0 as int].supers.contains(t)
    ||| exists|j: int|
        0 <= j < parts(table, t).len() && at_or_above(table, p, #[trigger] parts(table, t)[j])
}

/// Whether `a` is a subtype of `b`.
pub open spec fn is_subtype(table: Seq<TypeView>, a: Type, b: Type) -> bool {
    ||| b.0 == OBJECT
    ||| a == b
    ||| forall|i: int| 0 <= i < parts(table, a).len() ==> part_below(table, #[trigger] parts(table, a)[i], b)
}

/// Whether one of two types is a subtype of the other.
pub open spec fn are_compatible(table: Seq<TypeView>, a: Type, b: Type) -> bool {
    is_subtype(table, a, b) || is_subtype(table, b, a)
}

fn has_type(types: &Vec<Type>, t: Type) -> (res: bool)
    ensures
        res == types@.contains(t),
{
    let mut i: usize = 0;
    while i < types.len()
        invariant
            i <= types@.len(),
            forall|j: int| 0 <= j < i ==> types@[j] != t,
        decreases types@.len() - i,
    {
        if types[i] == t {
            return true;
        }
        i = i + 1;
    }
    false
}

/// The type table.
#[derive(Debug)]
pub struct Types {
    names: Vec<String>,
    components: Vec<Vec<Type>>,
    supers: Vec<Vec<Type>>,
    direct: Vec<Vec<Type>>,
}

pub open spec fn known_types(types: Seq<Type>, n: nat) -> bool {
    forall|i: int| 0 <= i < types.len() ==> (#[trigger] types[i]).0 < n
}

fn copy_lists(lists: &Vec<Vec<Type>>) -> (res: Vec<Vec<Type>>)
    ensures
        res@.len() == lists@.len(),
        forall|i: int| 0 <= i < lists@.len() ==> (#[trigger] res@[i])@ == lists@[i]@,
{
    let mut res: Vec<Vec<Type>> = Vec::new();
    let mut i: usize = 0;
    while i < lists.len()
        invariant
            i <= lists@.len(),
            res@.len() == i,
            forall|j: int| 0 <= j < i ==> (#[trigger] res@[j])@ == lists@[j]@,
        decreases lists@.len() - i,
    {
        res.push(copy_vec(&lists[i]));
        i = i + 1;
    }
    res
}

impl View for Types {
    type V = Seq<TypeView>;

    closed spec fn view(&self) -> Seq<TypeView> {
        Seq::new(
            self.names@.len(),
            |i: int|
                TypeView {
                    name: self.names@[i]@,
                    components: self.components@[i]@,
                    supers: self.supers@[i]@,
                    direct: self.direct@[i]@,
                },
        )
    }
}

/// The names of the types of a table; a union has the empty name.
pub open spec fn type_names(table: Seq<TypeView>) -> Seq<Seq<char>> {
    Seq::new(table.len(), |i: int| table[i].name)
}

/// A table whose entries speak of its own types only; the components of a union
/// are simple and supertypes are transitively closed.
pub open spec fn well_typed(table: Seq<TypeView>) -> bool {
    &&& table.len() > 0
    &&& table.len() <= u32::MAX
    &&& table[0].components.len() == 0
    &&& forall|i: int| 0 <= i < table.len() ==> known_types((#[trigger] table[i]).components, table.len()) && known_types(
        table[i].supers,
        table.len(),
    ) && known_types(table[i].direct, table.len())
    &&& forall|i: int, j: int|
        0 <= i < table.len() && 0 <= j < table[i].components.len() ==> table[(#[trigger] table[i].components[j]).0 as int].components.len() == 0
    &&& forall|i: int, j: int, k: int|
        0 <= i < table.len() && 0 <= j < table[i].supers.len() && 0 <= k < table[table[i].supers[j].0 as int].supers.len() ==> table[i].supers.contains(
            #[trigger] table[(#[trigger] table[i].supers[j]).0 as int].supers[k],
        )
}

/// The table with `sup` and its supertypes made supertypes of `sub` and of
/// everything below `sub`.
pub open spec fn is_wired(before: Seq<TypeView>, after: Seq<TypeView>, sub: Type, sup: Type) -> bool {
    &&& after.len() == before.len()
    &&& forall|i: int|
        0 <= i < before.len() ==> {
            &&& (#[trigger] after[i]).name == before[i].name
            &&& after[i].components == before[i].components
            &&& after[i].direct == (if i == sub.0 {
                before[i].direct.push(sup)
            } else {
                before[i].direct
            })
            &&& forall|t: Type|
                #[trigger] after[i].supers.contains(t) <==> before[i].supers.contains(t) || ((i == sub.0 || before[i].supers.contains(
                    sub,
                )) && (t == sup || before[sup.0 as int].supers.contains(t)))
        }
}

impl Types {
    /// The table's invariant.
    pub closed spec fn wf(&self) -> bool {
        &&& self.names@.len() == self.components@.len()
        &&& self.names@.len() == self.supers@.len()
        &&& self.names@.len() == self.direct@.len()
        &&& well_typed(self@)
    }

    /// What the invariant says of the entries.
    pub proof fn lemma_wf(&self)
        requires
            self.wf(),
        ensures
            well_typed(self@),
    {
    }

    /// A table with the type `object` alone.
    pub fn new() -> (res: Self)
        ensures
            res.wf(),
            res@ == seq![TypeView { name: "object"@, components: seq![], supers: seq![], direct: seq![] }],
    {
        let mut names: Vec<String> = Vec::new();
        names.push("object".to_string());
        let mut components: Vec<Vec<Type>> = Vec::new();
        components.push(Vec::new());
        let mut supers: Vec<Vec<Type>> = Vec::new();
        supers.push(Vec::new());
        let mut direct: Vec<Vec<Type>> = Vec::new();
        direct.push(Vec::new());
        let res = Types { names, components, supers, direct };
        proof {
            assert(res@ =~= seq![TypeView { name: "object"@, components: seq![], supers: seq![], direct: seq![] }]);
        }
        res
    }

    pub fn clone(&self) -> (res: Self)
        requires
            self.wf(),
        ensures
            res.wf(),
            res@ == self@,
    {
        let names = copy_names(&self.names);
        let components = copy_lists(&self.components);
        let supers = copy_lists(&self.supers);
        let direct = copy_lists(&self.direct);
        let res = Types { names, components, supers, direct };
        proof {
            assert(spellings(names@).len() == spellings(self.names@).len());
            assert forall|i: int| 0 <= i < self@.len() implies #[trigger] res@[i] == self@[i] by {
                assert(spellings(names@)[i] == spellings(self.names@)[i]);
            }
            assert(res@ =~= self@);
        }
        res
    }

    /// Number of types, `object` and unions among them.
    pub fn len(&self) -> (res: usize)
        ensures
            res == self@.len(),
    {
        self.names.len()
    }

    /// The name of a simple type; a union has none.
    pub fn name_opt(&self, t: Type) -> (res: Option<&str>)
        requires
            self.wf(),
        ensures
            res is Some <==> t.0 < self@.len() && self@[t.0 as int].components.len() == 0,
            res is Some ==> res->0@ == self@[t.0 as int].name,
    {
        let i = t.0 as usize;
        if i < self.names.len() && self.components[i].len() == 0 {
            Some(self.names[i].as_str())
        } else {
            None
        }
    }

    /// The name of a type; empty for a union.
    pub fn name(&self, t: Type) -> (res: &str)
        requires
            self.wf(),
            t.0 < self@.len(),
        ensures
            res@ == self@[t.0 as int].name,
    {
        self.names[t.0 as usize].as_str()
    }

    /// The components of a union; empty for a simple type.
    pub fn components(&self, t: Type) -> (res: &Vec<Type>)
        requires
            self.wf(),
            t.0 < self@.len(),
        ensures
            res@ == self@[t.0 as int].components,
    {
        &self.components[t.0 as usize]
    }

    /// The supertypes a type was declared with, in order.
    pub fn direct_supertypes(&self, t: Type) -> (res: &Vec<Type>)
        requires
            self.wf(),
            t.0 < self@.len(),
        ensures
            res@ == self@[t.0 as int].direct,
    {
        &self.direct[t.0 as usize]
    }

    /// Adds an entry that no other entry speaks of.
    fn add_entry(&mut self, name: String, components: Vec<Type>) -> (res: Type)
        requires
            old(self).wf(),
            old(self)@.len() < u32::MAX,
            known_types(components@, old(self)@.len()),
            forall|i: int| 0 <= i < components@.len() ==> old(self)@[(#[trigger] components@[i]).0 as int].components.len() == 0,
        ensures
            final(self).wf(),
            res.0 == old(self)@.len(),
            final(self)@ == old(self)@.push(
                TypeView { name: name@, components: components@, supers: seq![], direct: seq![] },
            ),
    {
        let number = self.names.len() as u32;
        let ghost before = self@;
        let ghost entry = TypeView { name: name@, components: components@, supers: seq![], direct: seq![] };
        self.names.push(name);
        self.components.push(components);
        self.supers.push(Vec::new());
        self.direct.push(Vec::new());
        proof {
            assert(self@ =~= before.push(entry));
            assert forall|i: int, j: int, k: int|
                0 <= i < self@.len() && 0 <= j < self@[i].supers.len() && 0 <= k < self@[self@[i].supers[j].0 as int].supers.len() implies self@[i].supers.contains(
                #[trigger] self@[(#[trigger] self@[i].supers[j]).0 as int].supers[k],
            ) by {
                assert(self@[i] == before[i]);
                assert(before[i].supers[j].0 < before.len());
                assert(before[i].supers.contains(before[before[i].supers[j].0 as int].supers[k]));
            }
            assert forall|i: int, j: int| 0 <= i < self@.len() && 0 <= j < self@[i].components.len() implies self@[(
            #[trigger] self@[i].components[j]).0 as int].components.len() == 0 by {
                if i < before.len() {
                    assert(self@[i] == before[i]);
                    assert(before[i].components[j].0 < before.len());
                }
            }
        }
        Type(number)
    }

    /// Adds a simple type (or returns the existing one of that name).
    pub fn add_type(&mut self, name: &str) -> (res: Type)
        requires
            old(self).wf(),
            old(self)@.len() < u32::MAX,
        ensures
            final(self).wf(),
            match position_of(type_names(old(self)@), name@) {
                Some(i) => final(self)@ == old(self)@ && res.0 == i,
                None => res.0 == old(self)@.len() && final(self)@ == old(self)@.push(
                    TypeView { name: name@, components: seq![], supers: seq![], direct: seq![] },
                ),
            },
            res.0 < final(self)@.len(),
    {
        proof {
            assert(spellings(self.names@) =~= type_names(self@));
        }
        match find_name(&self.names, name) {
            Some(i) => Type(i as u32),
            None => self.add_entry(name.to_string(), Vec::new()),
        }
    }

    /// Adds the union of the given types, in the given order: unions among them
    /// are replaced by their components. One type alone is its own union, and the
    /// union of none is `object`.
    pub fn union_type(&mut self, members: &Vec<Type>) -> (res: Type)
        requires
            old(self).wf(),
            old(self)@.len() < u32::MAX,
            known_types(members@, old(self)@.len()),
        ensures
            final(self).wf(),
            members@.len() == 0 ==> res.0 == OBJECT && final(self)@ == old(self)@,
            members@.len() == 1 ==> res == members@[0] && final(self)@ == old(self)@,
            members@.len() > 1 ==> res.0 == old(self)@.len() && final(self)@ == old(self)@.push(
                TypeView { name: seq![], components: all_parts(old(self)@, members@), supers: seq![], direct: seq![] },
            ),
            res.0 < final(self)@.len(),
    {
        if members.len() == 0 {
            return Type(OBJECT);
        }
        if members.len() == 1 {
            return members[0];
        }
        let mut flat: Vec<Type> = Vec::new();
        let mut i: usize = 0;
        while i < members.len()
            invariant
                self.wf(),
                i <= members@.len(),
                known_types(members@, self@.len()),
                flat@ == all_parts(self@, members@.take(i as int)),
                known_types(flat@, self@.len()),
                forall|j: int| 0 <= j < flat@.len() ==> self@[(#[trigger] flat@[j]).0 as int].components.len() == 0,
            decreases members@.len() - i,
        {
            let t = members[i];
            let ghost before = flat@;
            if self.components[t.0 as usize].len() == 0 {
                flat.push(t);
                assert(flat@ =~= before + parts(self@, t));
            } else {
                let inner = copy_vec(&self.components[t.0 as usize]);
                let mut k: usize = 0;
                while k < inner.len()
                    invariant
                        self.wf(),
                        t.0 < self@.len(),
                        inner@ == self@[t.0 as int].components,
                        k <= inner@.len(),
                        flat@ == before + inner@.take(k as int),
                        known_types(before, self@.len()),
                        forall|j: int| 0 <= j < before.len() ==> self@[(#[trigger] before[j]).0 as int].components.len() == 0,
                    decreases inner@.len() - k,
                {
                    flat.push(inner[k]);
                    assert(inner@.take(k + 1) =~= inner@.take(k as int).push(inner@[k as int]));
                    k = k + 1;
                }
                assert(inner@.take(k as int) =~= inner@);
                assert(flat@ =~= before + parts(self@, t));
            }
            proof {
                assert(members@.take(i + 1).drop_last() =~= members@.take(i as int));
                assert forall|j: int| 0 <= j < flat@.len() implies (#[trigger] flat@[j]).0 < self@.len() && self@[flat@[j].0 as int].components.len() == 0 by {
                    if j >= before.len() {
                        let e = parts(self@, t)[j - before.len()];
                        assert(flat@[j] == e);
                        if self@[t.0 as int].components.len() > 0 {
                            assert(self@[t.0 as int].components[j - before.len()] == e);
                        }
                    } else {
                        assert(flat@[j] == before[j]);
                    }
                }
            }
            i = i + 1;
        }
        assert(members@.take(i as int) =~= members@);
        let name = String::new();
        assert(name@ =~= seq![]);
        self.add_entry(name, flat)
    }

    /// Whether the simple type `p` is, or is declared below, a part of `t` or `t`
    /// itself.
    fn below(&self, p: Type, t: Type) -> (res: bool)
        requires
            self.wf(),
            p.0 < self@.len(),
            t.0 < self@.len(),
        ensures
            res == part_below(self@, p, t),
    {
        let supers = &self.supers[p.0 as usize];
        if has_type(supers, t) {
            return true;
        }
        let inner = &self.components[t.0 as usize];
        if inner.len() == 0 {
            let ghost ps = parts(self@, t);
            assert(ps[0] == t);
            return p == t || t.0 == OBJECT;
        }
        let mut j: usize = 0;
        while j < inner.len()
            invariant
                self.wf(),
                inner@ == parts(self@, t),
                supers@ == self@[p.0 as int].supers,
                j <= inner@.len(),
                forall|k: int| 0 <= k < j ==> !at_or_above(self@, p, #[trigger] parts(self@, t)[k]),
            decreases inner@.len() - j,
        {
            if p == inner[j] || inner[j].0 == OBJECT || has_type(supers, inner[j]) {
                assert(at_or_above(self@, p, parts(self@, t)[j as int]));
                return true;
            }
            j = j + 1;
        }
        false
    }

    /// Whether `a` is a subtype of `b`.
    pub fn subtype(&self, a: Type, b: Type) -> (res: bool)
        requires
            self.wf(),
            a.0 < self@.len(),
            b.0 < self@.len(),
        ensures
            res == is_subtype(self@, a, b),
    {
        if b.0 == OBJECT || a == b {
            return true;
        }
        let inner = &self.components[a.0 as usize];
        if inner.len() == 0 {
            let res = self.below(a, b);
            proof {
                let ps = parts(self@, a);
                assert(ps[0] == a);
            }
            return res;
        }
        let mut i: usize = 0;
        while i < inner.len()
            invariant
                self.wf(),
                b.0 < self@.len(),
                b.0 != OBJECT && a != b,
                inner@ == parts(self@, a),
                known_types(inner@, self@.len()),
                i <= inner@.len(),
                forall|k: int| 0 <= k < i ==> part_below(self@, #[trigger] parts(self@, a)[k], b),
            decreases inner@.len() - i,
        {
            if !self.below(inner[i], b) {
                assert(!part_below(self@, parts(self@, a)[i as int], b));
                return false;
            }
            i = i + 1;
        }
        true
    }

    /// Whether one of two types is a subtype of the other.
    pub fn compatible(&self, a: Type, b: Type) -> (res: bool)
        requires
            self.wf(),
            a.0 < self@.len(),
            b.0 < self@.len(),
        ensures
            res == are_compatible(self@, a, b),
    {
        self.subtype(a, b) || self.subtype(b, a)
    }

    /// Makes `sup` a supertype of `sub`, and with it of everything below `sub`.
    pub fn add_supertype(&mut self, sub: Type, sup: Type)
        requires
            old(self).wf(),
            sub.0 < old(self)@.len(),
            sup.0 < old(self)@.len(),
        ensures
            final(self).wf(),
            is_wired(old(self)@, final(self)@, sub, sup),
    {
        let ghost before = self@;
        let mut above = copy_vec(&self.supers[sup.0 as usize]);
        above.push(sup);
        let ghost up = above@;
        proof {
            assert(known_types(before[sup.0 as int].supers, before.len()));
            assert forall|j: int| 0 <= j < up.len() implies (#[trigger] up[j]).0 < before.len() by {
                if j < up.len() - 1 {
                    assert(up[j] == before[sup.0 as int].supers[j]);
                }
            }
            assert forall|t: Type| up.contains(t) <==> t == sup || before[sup.0 as int].supers.contains(t) by {
                let s0 = before[sup.0 as int].supers;
                if s0.contains(t) {
                    let k = choose|k: int| 0 <= k < s0.len() && s0[k] == t;
                    assert(up[k] == t);
                }
                if t == sup {
                    assert(up[up.len() - 1] == t);
                }
            }
        }
        let mut supers: Vec<Vec<Type>> = Vec::new();
        let mut i: usize = 0;
        while i < self.supers.len()
            invariant
                self.wf(),
                self@ == before,
                above@ == up,
                known_types(up, before.len()),
                i <= self.supers@.len(),
                supers@.len() == i,
                forall|j: int| 0 <= j < i ==> known_types((#[trigger] supers@[j])@, before.len()),
                forall|j: int, t: Type|
                    0 <= j < i ==> (#[trigger] supers@[j]@.contains(t) <==> before[j].supers.contains(t) || ((j == sub.0 || before[j].supers.contains(
                        sub,
                    )) && up.contains(t))),
            decreases self.supers@.len() - i,
        {
            let mut mine = copy_vec(&self.supers[i]);
            let ghost mine0 = mine@;
            assert(mine0 == before[i as int].supers);
            if i == sub.0 as usize || has_type(&self.supers[i], sub) {
                let mut k: usize = 0;
                while k < above.len()
                    invariant
                        above@ == up,
                        k <= up.len(),
                        known_types(up, before.len()),
                        known_types(mine@, before.len()),
                        forall|t: Type| #[trigger] mine@.contains(t) <==> mine0.contains(t) || up.take(k as int).contains(t),
                    decreases up.len() - k,
                {
                    let ghost m1 = mine@;
                    let ghost u1 = up.take(k as int);
                    if !has_type(&mine, above[k]) {
                        mine.push(above[k]);
                    }
                    proof {
                        let x = up[k as int];
                        assert(up.take(k + 1) =~= u1.push(x));
                        assert forall|t: Type| #[trigger] mine@.contains(t) <==> mine0.contains(t) || up.take(k + 1).contains(t) by {
                            lemma_push_has(m1, x, t);
                            lemma_push_has(u1, x, t);
                        }
                    }
                    k = k + 1;
                }
                assert(up.take(k as int) =~= up);
            }
            let ghost shown = supers@;
            supers.push(mine);
            proof {
                assert forall|j: int, t: Type|
                    0 <= j < i + 1 implies (#[trigger] supers@[j]@.contains(t) <==> before[j].supers.contains(t) || ((j == sub.0
                        || before[j].supers.contains(sub)) && up.contains(t))) by {
                    if j < i {
                        assert(supers@[j] == shown[j]);
                    }
                }
            }
            i = i + 1;
        }
        self.supers = supers;
        let sub_at = sub.0 as usize;
        let mut declared = copy_vec(&self.direct[sub_at]);
        declared.push(sup);
        self.direct.set(sub_at, declared);
        proof {
            assert(is_wired(before, self@, sub, sup));
            lemma_wired(before, self@, sub, sup);
        }
    }
}

/// The parts of a list of types, in order.
pub open spec fn all_parts(table: Seq<TypeView>, members: Seq<Type>) -> Seq<Type>
    decreases members.len(),
{
    if members.len() == 0 {
        seq![]
    } else {
        all_parts(table, members.drop_last()) + parts(table, members.last())
    }
}

proof fn lemma_push_has(s: Seq<Type>, x: Type, t: Type)
    ensures
        s.push(x).contains(t) <==> s.contains(t) || t == x,
{
    if s.contains(t) {
        let k = choose|k: int| 0 <= k < s.len() && s[k] == t;
        assert(s.push(x)[k] == t);
    }
    if t == x {
        assert(s.push(x)[s.len() as int] == t);
    }
}

proof fn lemma_wired(before: Seq<TypeView>, after: Seq<TypeView>, sub: Type, sup: Type)
    requires
        well_typed(before),
        is_wired(before, after, sub, sup),
        sub.0 < before.len(),
        sup.0 < before.len(),
    ensures
        well_typed(after),
{
    assert forall|i: int| 0 <= i < after.len() implies known_types((#[trigger] after[i]).components, after.len()) && known_types(
        after[i].supers,
        after.len(),
    ) && known_types(after[i].direct, after.len()) by {
        assert forall|j: int| 0 <= j < after[i].supers.len() implies (#[trigger] after[i].supers[j]).0 < after.len() by {
            let t = after[i].supers[j];
            assert(after[i].supers.contains(t));
            if before[i].supers.contains(t) {
                let k = choose|k: int| 0 <= k < before[i].supers.len() && before[i].supers[k] == t;
            } else if t != sup {
                let s0 = before[sup.0 as int].supers;
                let k = choose|k: int| 0 <= k < s0.len() && s0[k] == t;
            }
        }
    }
    assert forall|i: int, j: int, k: int|
        0 <= i < after.len() && 0 <= j < after[i].supers.len() && 0 <= k < after[after[i].supers[j].0 as int].supers.len() implies after[i].supers.contains(
        #[trigger] after[(#[trigger] after[i].supers[j]).0 as int].supers[k],
    ) by {
        let m = after[i].supers[j];
        let t = after[m.0 as int].supers[k];
        assert(after[i].supers.contains(m));
        assert(after[m.0 as int].supers.contains(t));
        lemma_closed(before, i, m, t, sub, sup);
    }
    assert forall|i: int, j: int| 0 <= i < after.len() && 0 <= j < after[i].components.len() implies after[(
    #[trigger] after[i].components[j]).0 as int].components.len() == 0 by {
        assert(before[i].components[j].0 < before.len());
    }
}

/// Whether `t` is among the supertypes of `i` once `sup` stands above `sub`.
spec fn wired_above(before: Seq<TypeView>, i: int, t: Type, sub: Type, sup: Type) -> bool {
    before[i].supers.contains(t) || ((i == sub.0 || before[i].supers.contains(sub)) && (t == sup
        || before[sup.0 as int].supers.contains(t)))
}

proof fn lemma_step(before: Seq<TypeView>, i: int, m: Type, t: Type)
    requires
        well_typed(before),
        0 <= i < before.len(),
        before[i].supers.contains(m),
        before[m.0 as int].supers.contains(t),
    ensures
        before[i].supers.contains(t),
        m.0 < before.len(),
{
    let j = choose|j: int| 0 <= j < before[i].supers.len() && before[i].supers[j] == m;
    let k = choose|k: int| 0 <= k < before[m.0 as int].supers.len() && before[m.0 as int].supers[k] == t;
    assert(before[i].supers.contains(before[before[i].supers[j].0 as int].supers[k]));
}

proof fn lemma_closed(before: Seq<TypeView>, i: int, m: Type, t: Type, sub: Type, sup: Type)
    requires
        well_typed(before),
        0 <= i < before.len(),
        sub.0 < before.len(),
        sup.0 < before.len(),
        m.0 < before.len(),
        wired_above(before, i, m, sub, sup),
        wired_above(before, m.0 as int, t, sub, sup),
    ensures
        wired_above(before, i, t, sub, sup),
{
    let n = m.0 as int;
    if before[i].supers.contains(m) {
        if before[n].supers.contains(t) {
            lemma_step(before, i, m, t);
        } else if m != sub {
            lemma_step(before, i, m, sub);
        }
    } else {
        if before[n].supers.contains(t) {
            if m == sup {
            } else {
                lemma_step(before, sup.0 as int, m, t);
            }
        }
    }
}

/// Every type is a subtype of itself.
pub proof fn subtype_is_reflexive(table: Seq<TypeView>, t: Type)
    ensures
        is_subtype(table, t, t),
{
}

proof fn lemma_part_below_trans(table: Seq<TypeView>, p: Type, b: Type, c: Type)
    requires
        well_typed(table),
        p.0 < table.len(),
        b.0 < table.len(),
        c.0 < table.len(),
        table[p.0 as int].components.len() == 0,
        table[0].supers.len() == 0,
        table[b.0 as int].components.len() > 0 ==> !table[p.0 as int].supers.contains(b),
        part_below(table, p, b),
        forall|i: int| 0 <= i < parts(table, b).len() ==> part_below(table, #[trigger] parts(table, b)[i], c),
    ensures
        part_below(table, p, c),
{
    let bs = parts(table, b);
    if table[p.0 as int].supers.contains(b) {
        assert(bs[0] == b);
    }
    let q = if table[p.0 as int].supers.contains(b) {
        b
    } else {
        let j = choose|j: int| 0 <= j < bs.len() && at_or_above(table, p, #[trigger] bs[j]);
        bs[j]
    };
    assert(part_below(table, q, c));
    if p != q && q.0 == OBJECT && !table[p.0 as int].supers.contains(q) {
        let cs = parts(table, c);
        let k = choose|k: int| 0 <= k < cs.len() && at_or_above(table, q, #[trigger] cs[k]);
        assert(cs[k].0 == OBJECT);
        assert(at_or_above(table, p, cs[k]));
    } else if p != q {
        if table[q.0 as int].supers.contains(c) {
            lemma_step(table, p.0 as int, q, c);
        } else {
            let cs = parts(table, c);
            let k = choose|k: int| 0 <= k < cs.len() && at_or_above(table, q, #[trigger] cs[k]);
            if q != cs[k] && cs[k].0 != OBJECT {
                lemma_step(table, p.0 as int, q, cs[k]);
            }
            assert(at_or_above(table, p, cs[k]));
        }
    }
}

/// Subtypes of subtypes are subtypes, where no type stands directly below a
/// union.
pub proof fn subtype_is_transitive(table: Seq<TypeView>, a: Type, b: Type, c: Type)
    requires
        well_typed(table),
        a.0 < table.len(),
        b.0 < table.len(),
        c.0 < table.len(),
        table[0].supers.len() == 0,
        table[b.0 as int].components.len() > 0 ==> forall|i: int| 0 <= i < table.len() ==> !(#[trigger] table[i]).supers.contains(b),
        is_subtype(table, a, b),
        is_subtype(table, b, c),
    ensures
        is_subtype(table, a, c),
{
    if c.0 == OBJECT || a == b || b == c {
    } else if b.0 == OBJECT {
        assert(parts(table, b)[0] == b);
        assert(part_below(table, b, c));
        assert(!table[0].supers.contains(c));
        let cs = parts(table, c);
        let k = choose|k: int| 0 <= k < cs.len() && at_or_above(table, b, #[trigger] cs[k]);
        assert(cs[k].0 == OBJECT);
        assert forall|i: int| 0 <= i < parts(table, a).len() implies part_below(table, #[trigger] parts(table, a)[i], c) by {
            assert(at_or_above(table, parts(table, a)[i], cs[k]));
        }
    } else {
        assert forall|i: int| 0 <= i < parts(table, a).len() implies part_below(table, #[trigger] parts(table, a)[i], c) by {
            let p = parts(table, a)[i];
            assert(part_below(table, p, b));
            if table[a.0 as int].components.len() > 0 {
                assert(table[a.0 as int].components[i] == p);
            }
            lemma_part_below_trans(table, p, b, c);
        }
    }
}

} // verus!
