//! Plan flaws: open conditions, threatened links (unsafes), and the flaw enum.
use std::rc::Rc;

use vstd::prelude::*;

use crate::chain::{self, elements, Chain};
use crate::effect::{Effect, EffectView};
use crate::formula::{same_formula, same_literal, same_params, Formula, FormulaView, Literal, LiteralView};
use crate::orderings::StepTime;
use crate::plan::GOAL_ID;
use crate::predicates::{Predicate, PredicateTable};
use crate::terms::Term;

verus! {

/// Time stamp on a literal open condition. For the classical subset only
/// `AtStart` is produced.
#[derive(Debug, Clone, Copy, PartialEq, Eq, Structural)]
pub enum FormulaTime {
    AtStart,
}

impl FormulaTime {
    pub fn start_time(self) -> (res: StepTime)
        ensures
            res == StepTime::AtStart,
    {
        StepTime::AtStart
    }

    pub fn end_time(self) -> (res: StepTime)
        ensures
            res == StepTime::AtStart,
    {
        StepTime::AtStart
    }
}

/// A causal link `from_id --condition--> to_id`.
#[derive(Debug)]
pub struct Link {
    pub from_id: usize,
    pub effect_time: StepTime,
    pub to_id: usize,
    pub condition: Literal,
    pub condition_time: FormulaTime,
}

#[verifier::ext_equal]
pub struct LinkView {
    pub from_id: usize,
    pub effect_time: StepTime,
    pub to_id: usize,
    pub condition: LiteralView,
    pub condition_time: FormulaTime,
}

impl View for Link {
    type V = LinkView;

    open spec fn view(&self) -> LinkView {
        LinkView {
            from_id: self.from_id,
            effect_time: self.effect_time,
            to_id: self.to_id,
            condition: self.condition@,
            condition_time: self.condition_time,
        }
    }
}

impl Clone for Link {
    fn clone(&self) -> (res: Self)
        ensures
            res@ == self@,
    {
        Link {
            from_id: self.from_id,
            effect_time: self.effect_time,
            to_id: self.to_id,
            condition: self.condition.clone(),
            condition_time: self.condition_time,
        }
    }
}

/// An open condition: a subgoal of `step_id` not yet supported by a link.
#[derive(Debug)]
pub struct OpenCondition {
    pub step_id: usize,
    pub condition: Rc<Formula>,
    pub when: FormulaTime,
}

#[verifier::ext_equal]
pub struct OpenView {
    pub step_id: usize,
    pub condition: FormulaView,
    pub when: FormulaTime,
}

impl OpenView {
    /// The literal of a literal open condition.
    pub open spec fn as_literal(self) -> Option<LiteralView> {
        match self.condition {
            FormulaView::Atom(a) => Some(LiteralView { negative: false, atom: a }),
            FormulaView::Negation(a) => Some(LiteralView { negative: true, atom: a }),
            _ => None,
        }
    }

    /// Whether this is a literal of a static predicate, at a step other than the
    /// goal.
    pub open spec fn has_static(self, dynamic: Set<Predicate>) -> bool {
        self.step_id != GOAL_ID && self.as_literal() is Some && !dynamic.contains(self.as_literal()->0.atom.predicate)
    }
}

impl View for OpenCondition {
    type V = OpenView;

    open spec fn view(&self) -> OpenView {
        OpenView { step_id: self.step_id, condition: self.condition@, when: self.when }
    }
}

impl Clone for OpenCondition {
    fn clone(&self) -> (res: Self)
        ensures
            res == *self,
    {
        OpenCondition { step_id: self.step_id, condition: self.condition.clone(), when: self.when }
    }
}

impl OpenCondition {
    /// Returns the literal of a literal open condition, if any.
    pub fn literal(&self) -> (res: Option<Literal>)
        ensures
            match self@.as_literal() {
                None => res is None,
                Some(l) => res matches Some(r) && r@ == l,
            },
    {
        match &*self.condition {
            Formula::Atom(a) => Some(Literal::Atom(a.clone())),
            Formula::Negation(a) => Some(Literal::Negation(a.clone())),
            _ => None,
        }
    }

    /// The two terms of an inequality.
    pub fn inequality(&self) -> (res: Option<(Term, Term)>)
        ensures
            res == (match self@.condition {
                FormulaView::Inequality(l, _, r, _) => Some((l, r)),
                _ => None,
            }),
    {
        match &*self.condition {
            Formula::Inequality { left, left_id: _, right, right_id: _ } => Some((*left, *right)),
            _ => None,
        }
    }

    /// The disjuncts of a disjunction.
    pub fn disjunction(&self) -> (res: Option<&Vec<Rc<Formula>>>)
        ensures
            match self@.condition {
                FormulaView::Disjunction(ds) => res matches Some(r) && crate::formula::forms(r@) == ds,
                _ => res is None,
            },
    {
        match &*self.condition {
            Formula::Disjunction(ds) => Some(ds),
            _ => None,
        }
    }

    /// Checks if this is a static (non-goal) literal open condition.
    pub fn is_static(&self, predicates: &PredicateTable) -> (res: bool)
        ensures
            res == self@.has_static(predicates.dynamics()),
    {
        if self.step_id == GOAL_ID {
            return false;
        }
        match self.literal() {
            Some(l) => predicates.is_static(l.atom().predicate),
            None => false,
        }
    }

    /// Whether two open conditions are the same subgoal.
    pub fn same(&self, other: &OpenCondition) -> (res: bool)
        ensures
            res == (self@ == other@),
    {
        let res = self.step_id == other.step_id && same_formula(&self.condition, &other.condition);
        assert(res == (self@.step_id == other@.step_id && self@.condition == other@.condition));
        res
    }
}

/// A threatened causal link: `step_id`'s `effect` may clobber `link`.
#[derive(Debug)]
pub struct Unsafe {
    pub link: Link,
    pub step_id: usize,
    pub effect: Effect,
}

pub struct UnsafeView {
    pub link: LinkView,
    pub step_id: usize,
    pub effect: EffectView,
}

impl View for Unsafe {
    type V = UnsafeView;

    open spec fn view(&self) -> UnsafeView {
        UnsafeView { link: self.link@, step_id: self.step_id, effect: self.effect@ }
    }
}

impl Clone for Unsafe {
    fn clone(&self) -> (res: Self)
        ensures
            res@ == self@,
    {
        Unsafe { link: self.link.clone(), step_id: self.step_id, effect: self.effect.clone() }
    }
}

fn same_link(a: &Link, b: &Link) -> (res: bool)
    ensures
        res == (a@ == b@),
{
    let res = a.from_id == b.from_id && a.to_id == b.to_id && a.effect_time == b.effect_time && same_literal(
        &a.condition,
        &b.condition,
    );
    assert(res == (a@.from_id == b@.from_id && a@.to_id == b@.to_id && a@.effect_time == b@.effect_time && a@.condition
        == b@.condition));
    res
}

impl Unsafe {
    /// Whether two threats are the same.
    pub fn same(&self, other: &Unsafe) -> (res: bool)
        ensures
            res == (self@ == other@),
    {
        same_link(&self.link, &other.link) && self.step_id == other.step_id && same_literal(
            &self.effect.literal,
            &other.effect.literal,
        ) && same_formula(&self.effect.condition, &other.effect.condition) && self.effect.when == other.effect.when && same_params(
            &self.effect.parameters,
            &other.effect.parameters,
        ) && same_formula(&self.effect.link_condition, &other.effect.link_condition)
    }
}

/// A plan flaw (`OpenCondition` or `Unsafe`).
#[derive(Debug)]
pub enum Flaw {
    Unsafe(Unsafe),
    OpenCondition(OpenCondition),
}

pub enum FlawView {
    Unsafe(UnsafeView),
    OpenCondition(OpenView),
}

impl View for Flaw {
    type V = FlawView;

    open spec fn view(&self) -> FlawView {
        match self {
            Flaw::Unsafe(u) => FlawView::Unsafe(u@),
            Flaw::OpenCondition(o) => FlawView::OpenCondition(o@),
        }
    }
}

/// A list without the first occurrence of a value.
pub open spec fn removed<V>(s: Seq<V>, x: V) -> Seq<V>
    decreases s.len(),
{
    if s.len() == 0 {
        s
    } else if s[0] == x {
        s.drop_first()
    } else {
        seq![s[0]] + removed(s.drop_first(), x)
    }
}

/// The forms of a chain of open conditions.
pub open spec fn open_views(s: Seq<OpenCondition>) -> Seq<OpenView> {
    Seq::new(s.len(), |i: int| s[i]@)
}

/// The forms of a chain of threats.
pub open spec fn unsafe_views(s: Seq<Unsafe>) -> Seq<UnsafeView> {
    Seq::new(s.len(), |i: int| s[i]@)
}

/// The forms of a chain of links.
pub open spec fn link_views(s: Seq<Link>) -> Seq<LinkView> {
    Seq::new(s.len(), |i: int| s[i]@)
}

/// Removes an open condition from a chain.
pub fn remove_open(c: &Option<Rc<Chain<OpenCondition>>>, x: &OpenCondition) -> (res: Option<Rc<Chain<OpenCondition>>>)
    ensures
        open_views(elements(&res)) == removed(open_views(elements(c)), x@),
    decreases c,
{
    match c {
        None => None,
        Some(node) => {
            let ghost all = open_views(elements(c));
            assert(all[0] == node.head@);
            assert(all.drop_first() =~= open_views(elements(&node.tail)));
            if node.head.same(x) {
                chain::share(&node.tail)
            } else {
                let rest = remove_open(&node.tail, x);
                let res = chain::cons(node.head.clone(), rest);
                assert(open_views(elements(&res)) =~= seq![all[0]] + open_views(elements(&rest)));
                res
            }
        },
    }
}

/// Removes a threat from a chain.
pub fn remove_unsafe(c: &Option<Rc<Chain<Unsafe>>>, x: &Unsafe) -> (res: Option<Rc<Chain<Unsafe>>>)
    ensures
        unsafe_views(elements(&res)) == removed(unsafe_views(elements(c)), x@),
    decreases c,
{
    match c {
        None => None,
        Some(node) => {
            let ghost all = unsafe_views(elements(c));
            assert(all[0] == node.head@);
            assert(all.drop_first() =~= unsafe_views(elements(&node.tail)));
            if node.head.same(x) {
                chain::share(&node.tail)
            } else {
                let rest = remove_unsafe(&node.tail, x);
                let res = chain::cons(node.head.clone(), rest);
                assert(unsafe_views(elements(&res)) =~= seq![all[0]] + unsafe_views(elements(&rest)));
                res
            }
        },
    }
}

} // verus!
