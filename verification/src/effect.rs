//! Action effects.
//!
//! A single [`Effect`] adds or deletes one literal. Conditional effects carry a
//! non-`True` [`condition`](Effect::condition); universally quantified effects
//! carry [`parameters`](Effect::parameters). Classical effects are always
//! `AtEnd`.
use std::rc::Rc;

use vstd::prelude::*;

use crate::formula::{
    apart, atom_separator, both, either, negated, same_params, separated, Formula, FormulaView, Literal, LiteralView,
};
use crate::terms::Variable;
use crate::text::copy_vec;

verus! {

/// Temporal annotation for an effect. For the classical subset only
/// [`AtEnd`](EffectTime::AtEnd) is produced.
#[derive(Debug, Clone, Copy, PartialEq, Eq, Structural)]
pub enum EffectTime {
    AtStart,
    AtEnd,
}

/// A single effect: under `condition`, asserts `literal`.
#[derive(Debug)]
pub struct Effect {
    /// Universally quantified variables (from `(forall ...)`).
    pub parameters: Vec<Variable>,
    /// Condition guarding the effect; `True` for unconditional effects.
    pub condition: Rc<Formula>,
    pub literal: Literal,
    pub when: EffectTime,
    /// Extra condition so that the effect does not clobber a same-step effect or
    /// the action's own precondition (e.g. the `(not (= ?from ?to))` on `move`'s
    /// effects). Added as a goal at link time and used to prune impossible
    /// threats.
    pub link_condition: Rc<Formula>,
}

pub struct EffectView {
    pub parameters: Seq<Variable>,
    pub condition: FormulaView,
    pub literal: LiteralView,
    pub when: EffectTime,
    pub link_condition: FormulaView,
}

impl View for Effect {
    type V = EffectView;

    open spec fn view(&self) -> EffectView {
        EffectView {
            parameters: self.parameters@,
            condition: self.condition@,
            literal: self.literal@,
            when: self.when,
            link_condition: self.link_condition@,
        }
    }
}

/// The mathematical forms of a list of effects.
pub open spec fn effect_views(effects: Seq<Effect>) -> Seq<EffectView> {
    Seq::new(effects.len(), |i: int| effects[i]@)
}

impl Clone for Effect {
    fn clone(&self) -> (res: Self)
        ensures
            res@ == self@,
    {
        let res = Effect {
            parameters: copy_vec(&self.parameters),
            condition: self.condition.clone(),
            literal: self.literal.clone(),
            when: self.when,
            link_condition: self.link_condition.clone(),
        };
        assert(res@.parameters == self@.parameters);
        res
    }
}

impl Effect {
    /// Constructs an unconditional, unquantified `AtEnd` effect.
    pub fn new(literal: Literal) -> (res: Self)
        ensures
            res@ == (EffectView {
                parameters: seq![],
                condition: FormulaView::True,
                literal: literal@,
                when: EffectTime::AtEnd,
                link_condition: FormulaView::True,
            }),
    {
        let res = Effect {
            parameters: Vec::new(),
            condition: Rc::new(Formula::True),
            literal,
            when: EffectTime::AtEnd,
            link_condition: Rc::new(Formula::True),
        };
        assert(res@.parameters =~= seq![]);
        res
    }

    pub fn conditional(&self) -> (res: bool)
        ensures
            res == !(self@.condition is True),
    {
        !self.condition.tautology()
    }
}

/// What keeps the negative effect `e` from the first `n` effects: separation from
/// each positive one of the same time and parameters, or that its condition
/// fails.
pub open spec fn clear_of(effects: Seq<EffectView>, e: EffectView, n: nat) -> FormulaView
    decreases n,
{
    if n == 0 {
        FormulaView::True
    } else {
        let before = clear_of(effects, e, (n - 1) as nat);
        let other = effects[n - 1];
        if other.literal.negative || other.when != e.when || other.parameters != e.parameters {
            before
        } else {
            match apart(e.literal.atom, other.literal.atom) {
                None => before,
                Some(sep) => both(before, either(sep, negated(other.condition))),
            }
        }
    }
}

/// The link condition of effect `e` of an action: its own, separation from the
/// action's positive effects if it is negative, and separation from the
/// precondition.
pub open spec fn strengthened(effects: Seq<EffectView>, e: EffectView, precondition: FormulaView) -> FormulaView {
    let own = if e.literal.negative {
        both(e.link_condition, clear_of(effects, e, effects.len()))
    } else {
        e.link_condition
    };
    both(own, separated(precondition, e.literal))
}

/// Separates one negative effect from the positive effects of its action.
fn separate_own(effects: &Vec<Effect>, e: &Effect) -> (res: Rc<Formula>)
    ensures
        res@ == clear_of(effect_views(effects@), e@, effects@.len()),
{
    let ghost all = effect_views(effects@);
    let mut cond: Rc<Formula> = Rc::new(Formula::True);
    let mut j: usize = 0;
    while j < effects.len()
        invariant
            all == effect_views(effects@),
            j <= effects@.len(),
            cond@ == clear_of(all, e@, j as nat),
        decreases effects@.len() - j,
    {
        let other = &effects[j];
        assert(all[j as int] == other@);
        if !other.literal.negative() && other.when == e.when && same_params(&other.parameters, &e.parameters) {
            match atom_separator(e.literal.atom(), other.literal.atom()) {
                Some(sep) => {
                    let term = Formula::or(sep, other.condition.negation());
                    cond = Formula::and(cond, term);
                },
                None => {},
            }
        }
        j = j + 1;
    }
    cond
}

/// Strengthens an action's effects by computing their `link_condition`s, so an
/// effect cannot clobber a same-step effect or the action's own precondition.
/// This is essential for search efficiency: e.g. it gives `move`'s effects the
/// `(not (= ?from ?to))` condition, which propagates `?from != ?to` at link
/// time and prunes a huge number of otherwise-unconstrained plans.
pub fn strengthen_effects(effects: &mut Vec<Effect>, precondition: &Rc<Formula>)
    ensures
        final(effects)@.len() == old(effects)@.len(),
        forall|i: int|
            0 <= i < old(effects)@.len() ==> (#[trigger] final(effects)@[i])@ == (EffectView {
                link_condition: strengthened(effect_views(old(effects)@), old(effects)@[i]@, precondition@),
                ..old(effects)@[i]@
            }),
{
    let ghost before = effects@;
    let ghost all = effect_views(before);
    let mut links: Vec<Rc<Formula>> = Vec::new();
    let mut i: usize = 0;
    while i < effects.len()
        invariant
            effects@ == before,
            all == effect_views(before),
            i <= before.len(),
            links@.len() == i,
            forall|k: int| 0 <= k < i ==> (#[trigger] links@[k])@ == strengthened(all, before[k]@, precondition@),
        decreases before.len() - i,
    {
        let e = &effects[i];
        let own = if e.literal.negative() {
            Formula::and(e.link_condition.clone(), separate_own(effects, e))
        } else {
            e.link_condition.clone()
        };
        let sep = precondition.separator(&e.literal);
        links.push(Formula::and(own, sep));
        i = i + 1;
    }
    let mut k: usize = 0;
    while k < effects.len()
        invariant
            k <= before.len(),
            effects@.len() == before.len(),
            links@.len() == before.len(),
            all == effect_views(before),
            forall|m: int| 0 <= m < before.len() ==> (#[trigger] links@[m])@ == strengthened(all, before[m]@, precondition@),
            forall|m: int|
                0 <= m < k ==> (#[trigger] effects@[m])@ == (EffectView {
                    link_condition: strengthened(all, before[m]@, precondition@),
                    ..before[m]@
                }),
            forall|m: int| k <= m < before.len() ==> #[trigger] effects@[m] == before[m],
        decreases before.len() - k,
    {
        let e = &effects[k];
        let changed = Effect {
            parameters: copy_vec(&e.parameters),
            condition: e.condition.clone(),
            literal: e.literal.clone(),
            when: e.when,
            link_condition: links[k].clone(),
        };
        proof {
            assert(changed@.parameters == before[k as int]@.parameters);
            assert(changed@ == (EffectView {
                link_condition: strengthened(all, before[k as int]@, precondition@),
                ..before[k as int]@
            }));
        }
        effects.set(k, changed);
        k = k + 1;
    }
}

} // verus!
