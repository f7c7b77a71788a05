//! Turning a goal formula into open conditions and binding constraints.
use std::rc::Rc;

use vstd::prelude::*;

use crate::bindings::Binding;
use crate::chain::{self, elements, Chain};
use crate::flaws::{open_views, FormulaTime, OpenCondition, OpenView};
use crate::formula::{all_of, both, conjuncts, forms, put, put_all, shadow, Formula, FormulaView};
use crate::terms::{Object, Term, Variable};
use crate::typing::{TypeContext, Typing};

verus! {

/// The deepest nesting of universal quantifiers in a list of formulas.
pub open spec fn foralls_all(fs: Seq<FormulaView>, n: nat) -> nat
    decreases fs, n,
{
    if n == 0 || n > fs.len() {
        0
    } else {
        let rest = foralls_all(fs, (n - 1) as nat);
        let last = foralls(fs[n - 1]);
        if last > rest {
            last
        } else {
            rest
        }
    }
}

/// The deepest nesting of universal quantifiers in a formula, outside of
/// disjunctions.
pub open spec fn foralls(f: FormulaView) -> nat
    decreases f, 0nat,
{
    match f {
        FormulaView::Conjunction(cs) => foralls_all(cs, cs.len()),
        FormulaView::Exists(_, body) => foralls(*body),
        FormulaView::Forall(_, body) => 1 + foralls(*body),
        _ => 0,
    }
}

/// A member of a list nests quantifiers no deeper than the list.
pub proof fn lemma_foralls_member(fs: Seq<FormulaView>, n: nat, i: int)
    requires
        0 <= i < n <= fs.len(),
    ensures
        foralls(fs[i]) <= foralls_all(fs, n),
    decreases n,
{
    if i < n - 1 {
        lemma_foralls_member(fs, (n - 1) as nat, i);
    }
}

proof fn lemma_foralls_bound(fs: Seq<FormulaView>, n: nat, d: nat)
    requires
        n <= fs.len(),
        forall|i: int| 0 <= i < n ==> foralls(#[trigger] fs[i]) <= d,
    ensures
        foralls_all(fs, n) <= d,
    decreases n,
{
    if n > 0 {
        lemma_foralls_bound(fs, (n - 1) as nat, d);
        assert(foralls(fs[n - 1]) <= d);
    }
}

proof fn lemma_foralls_conjuncts(f: FormulaView, i: int)
    requires
        0 <= i < conjuncts(f).len(),
    ensures
        foralls(conjuncts(f)[i]) <= foralls(f),
{
    match f {
        FormulaView::Conjunction(cs) => {
            lemma_foralls_member(cs, cs.len(), i);
        },
        _ => {},
    }
}

proof fn lemma_foralls_both(f: FormulaView, g: FormulaView, d: nat)
    requires
        foralls(f) <= d,
        foralls(g) <= d,
    ensures
        foralls(both(f, g)) <= d,
{
    if !(f is False || g is False || f is True || g is True) {
        let a = conjuncts(f);
        let b = conjuncts(g);
        let ab = a + b;
        assert forall|i: int| 0 <= i < ab.len() implies foralls(#[trigger] ab[i]) <= d by {
            if i < a.len() {
                lemma_foralls_conjuncts(f, i);
            } else {
                lemma_foralls_conjuncts(g, i - a.len());
            }
        }
        lemma_foralls_bound(ab, ab.len(), d);
    }
}

proof fn lemma_foralls_all_of(fs: Seq<FormulaView>, d: nat)
    requires
        forall|i: int| 0 <= i < fs.len() ==> foralls(#[trigger] fs[i]) <= d,
    ensures
        foralls(all_of(fs)) <= d,
    decreases fs.len(),
{
    if fs.len() > 0 {
        let front = fs.drop_last();
        assert forall|i: int| 0 <= i < front.len() implies foralls(#[trigger] front[i]) <= d by {
            assert(front[i] == fs[i]);
        }
        lemma_foralls_all_of(front, d);
        assert(foralls(fs[fs.len() - 1]) <= d);
        lemma_foralls_both(all_of(front), fs.last(), d);
    }
}

proof fn lemma_foralls_put(f: FormulaView, subst: Seq<(Variable, Term)>)
    ensures
        foralls(put(f, subst)) == foralls(f),
    decreases f, 0nat,
{
    match f {
        FormulaView::Conjunction(cs) => {
            lemma_foralls_put_all(cs, subst, cs.len());
        },
        FormulaView::Exists(params, body) => {
            lemma_foralls_put(*body, shadow(subst, params));
        },
        FormulaView::Forall(params, body) => {
            lemma_foralls_put(*body, shadow(subst, params));
        },
        _ => {},
    }
}

proof fn lemma_foralls_put_all(fs: Seq<FormulaView>, subst: Seq<(Variable, Term)>, n: nat)
    requires
        n <= fs.len(),
    ensures
        foralls_all(put_all(fs, subst), n) == foralls_all(fs, n),
    decreases fs, n,
{
    if n > 0 {
        lemma_foralls_put_all(fs, subst, (n - 1) as nat);
        lemma_foralls_put(fs[n - 1], subst);
        assert(put_all(fs, subst)[n - 1] == put(fs[n - 1], subst));
    }
}

/// The instances of a formula over the first `n` of a list of objects for a
/// parameter, each expanded over the remaining parameters.
pub open spec fn instances(t: Typing, params: Seq<Variable>, body: FormulaView, id: usize, os: Seq<Object>) -> Seq<FormulaView>
    decreases params.len(), 0nat,
{
    if params.len() == 0 {
        seq![]
    } else {
        Seq::new(
            os.len(),
            |i: int| universal_base(t, params.drop_first(), put(body, seq![(params[0], Term::Object(os[i]))]), id),
        )
    }
}

/// The universal base of a formula: the conjunction of its instances over all
/// type-compatible object tuples for the parameters.
pub open spec fn universal_base(t: Typing, params: Seq<Variable>, body: FormulaView, id: usize) -> FormulaView
    decreases params.len(), 1nat,
{
    if params.len() == 0 {
        body
    } else {
        all_of(instances(t, params, body, id, t.range(t.var_ty(params[0], id))))
    }
}

/// Expanding a quantifier nests quantifiers no deeper than its body.
pub proof fn lemma_base_foralls(t: Typing, params: Seq<Variable>, body: FormulaView, id: usize)
    ensures
        foralls(universal_base(t, params, body, id)) <= foralls(body),
    decreases params.len(),
{
    if params.len() > 0 {
        let os = t.range(t.var_ty(params[0], id));
        let fs = instances(t, params, body, id, os);
        assert forall|i: int| 0 <= i < fs.len() implies foralls(#[trigger] fs[i]) <= foralls(body) by {
            let one = put(body, seq![(params[0], Term::Object(os[i]))]);
            lemma_foralls_put(body, seq![(params[0], Term::Object(os[i]))]);
            lemma_base_foralls(t, params.drop_first(), one, id);
        }
        lemma_foralls_all_of(fs, foralls(body));
    }
}

/// Universal base: instantiates the body over all type-compatible object tuples
/// for the quantified parameters.
pub fn expand(ctx: &TypeContext, params: &Vec<Variable>, from: usize, body: &Rc<Formula>, step_id: usize) -> (res: Rc<Formula>)
    requires
        ctx.wf(),
        from <= params@.len(),
    ensures
        res@ == universal_base(ctx@, params@.skip(from as int), body@, step_id),
    decreases params@.len() - from,
{
    let ghost rest = params@.skip(from as int);
    if from == params.len() {
        return body.clone();
    }
    let p = params[from];
    let next: usize = from + 1;
    assert(rest[0] == p);
    assert(rest.drop_first() =~= params@.skip(from + 1));
    let os = ctx.compatible_objects(ctx.variable_type(p, step_id));
    let ghost fs = instances(ctx@, rest, body@, step_id, os@);
    let mut acc: Rc<Formula> = Rc::new(Formula::True);
    let mut i: usize = 0;
    while i < os.len()
        invariant
            ctx.wf(),
            from < params@.len(),
            next == from + 1,
            p == params@[from as int],
            rest == params@.skip(from as int),
            rest.len() > 0,
            rest[0] == p,
            rest.drop_first() == params@.skip(from + 1),
            i <= os@.len(),
            fs == instances(ctx@, rest, body@, step_id, os@),
            fs.len() == os@.len(),
            acc@ == all_of(fs.take(i as int)),
        decreases os@.len() - i,
    {
        let mut subst: Vec<(Variable, Term)> = Vec::new();
        subst.push((p, Term::Object(os[i])));
        assert(subst@ =~= seq![(p, Term::Object(os@[i as int]))]);
        let one = body.substitute(&subst);
        let inst = expand(ctx, params, next, &one, step_id);
        acc = Formula::and(acc, inst);
        assert(fs.take(i + 1).drop_last() =~= fs.take(i as int));
        assert(fs.take(i + 1).last() == fs[i as int]);
        i = i + 1;
    }
    assert(fs.take(i as int) =~= fs);
    acc
}

/// What a goal adds: open conditions, newest first, and bindings, in order.
#[verifier::ext_equal]
pub struct Agenda {
    pub opens: Seq<OpenView>,
    pub binds: Seq<Binding>,
}

/// The binding that an (in)equality of two terms, not both objects, stands for.
pub open spec fn binding_of(l: Term, li: usize, r: Term, ri: usize, equality: bool) -> Binding {
    match l {
        Term::Variable(v) => Binding { var: v, var_id: li, term: r, term_id: ri, equality },
        Term::Object(_) => match r {
            Term::Variable(v) => Binding { var: v, var_id: ri, term: l, term_id: li, equality },
            Term::Object(_) => Binding { var: Variable(0), var_id: li, term: r, term_id: ri, equality },
        },
    }
}

/// The step id of a term, where it has none of its own.
pub open spec fn id_or(id: Option<usize>, step_id: usize) -> usize {
    match id {
        Some(i) => i,
        None => step_id,
    }
}

/// What an (in)equality adds; `None` if it is between objects and does not hold.
pub open spec fn with_equation(
    a: Agenda,
    l: Term,
    li: Option<usize>,
    r: Term,
    ri: Option<usize>,
    step_id: usize,
    equality: bool,
) -> Option<Agenda> {
    if l is Object && r is Object {
        if (l == r) == equality {
            Some(a)
        } else {
            None
        }
    } else {
        Some(
            Agenda {
                binds: a.binds.push(binding_of(l, id_or(li, step_id), r, id_or(ri, step_id), equality)),
                ..a
            },
        )
    }
}

/// What the first `n` of a list of formulas add, the last of them first.
pub open spec fn with_goals(t: Typing, a: Agenda, fs: Seq<FormulaView>, n: nat, step_id: usize) -> Option<Agenda>
    decreases foralls_all(fs, n), fs, n,
{
    if n == 0 || n > fs.len() {
        Some(a)
    } else {
        proof {
            lemma_foralls_member(fs, n, n - 1);
            if n > 1 {
                lemma_foralls_less(fs, n);
            }
        }
        match with_goal(t, a, fs[n - 1], step_id) {
            None => None,
            Some(b) => with_goals(t, b, fs, (n - 1) as nat, step_id),
        }
    }
}

/// What a goal formula of a step adds to an agenda; `None` if it is a
/// contradiction.
pub open spec fn with_goal(t: Typing, a: Agenda, f: FormulaView, step_id: usize) -> Option<Agenda>
    decreases foralls(f), f, 0nat,
{
    match f {
        FormulaView::True => Some(a),
        FormulaView::False => None,
        FormulaView::Atom(_) => Some(Agenda { opens: seq![OpenView { step_id, condition: f, when: FormulaTime::AtStart }] + a.opens, ..a }),
        FormulaView::Negation(_) => Some(Agenda { opens: seq![OpenView { step_id, condition: f, when: FormulaTime::AtStart }] + a.opens, ..a }),
        FormulaView::Disjunction(_) => Some(Agenda { opens: seq![OpenView { step_id, condition: f, when: FormulaTime::AtStart }] + a.opens, ..a }),
        FormulaView::Equality(l, li, r, ri) => with_equation(a, l, li, r, ri, step_id, true),
        FormulaView::Inequality(l, li, r, ri) => with_equation(a, l, li, r, ri, step_id, false),
        FormulaView::Conjunction(cs) => with_goals(t, a, cs, cs.len(), step_id),
        FormulaView::Exists(_, body) => with_goal(t, a, *body, step_id),
        FormulaView::Forall(params, body) => {
            proof {
                lemma_base_foralls(t, params, *body, step_id);
            }
            with_goal(t, a, universal_base(t, params, *body, step_id), step_id)
        },
    }
}

/// A shorter list nests quantifiers no deeper.
pub proof fn lemma_foralls_less(fs: Seq<FormulaView>, n: nat)
    requires
        0 < n <= fs.len(),
    ensures
        foralls_all(fs, (n - 1) as nat) <= foralls_all(fs, n),
{
}

/// Adds the formulas of a list, the last first.
fn add_goals(
    ctx: &TypeContext,
    open_conds: &mut Option<Rc<Chain<OpenCondition>>>,
    new_bindings: &mut Vec<Binding>,
    goals: &Vec<Rc<Formula>>,
    n: usize,
    step_id: usize,
) -> (res: bool)
    requires
        ctx.wf(),
        n <= goals@.len(),
    ensures
        match with_goals(
            ctx@,
            (Agenda { opens: open_views(elements(old(open_conds))), binds: old(new_bindings)@ }),
            forms(goals@),
            n as nat,
            step_id,
        ) {
            None => !res,
            Some(b) => res && open_views(elements(final(open_conds))) == b.opens && final(new_bindings)@ == b.binds,
        },
    decreases foralls_all(forms(goals@), n as nat), goals, n,
{
    if n == 0 {
        return true;
    }
    proof {
        lemma_foralls_member(forms(goals@), n as nat, n - 1);
        lemma_foralls_less(forms(goals@), n as nat);
    }
    if !add_goal(ctx, open_conds, new_bindings, &goals[n - 1], step_id) {
        return false;
    }
    add_goals(ctx, open_conds, new_bindings, goals, n - 1, step_id)
}

/// Adds a goal formula to the open-condition chain, accumulating binding
/// constraints from equality/inequality literals. Returns false if the goal is
/// a contradiction.
pub fn add_goal(
    ctx: &TypeContext,
    open_conds: &mut Option<Rc<Chain<OpenCondition>>>,
    new_bindings: &mut Vec<Binding>,
    goal: &Rc<Formula>,
    step_id: usize,
) -> (res: bool)
    requires
        ctx.wf(),
    ensures
        match with_goal(
            ctx@,
            (Agenda { opens: open_views(elements(old(open_conds))), binds: old(new_bindings)@ }),
            goal@,
            step_id,
        ) {
            None => !res,
            Some(b) => res && open_views(elements(final(open_conds))) == b.opens && final(new_bindings)@ == b.binds,
        },
    decreases foralls(goal@), goal, 0nat,
{
    let ghost before = open_views(elements(open_conds));
    match &**goal {
        Formula::True => true,
        Formula::False => false,
        Formula::Conjunction(cs) => add_goals(ctx, open_conds, new_bindings, cs, cs.len(), step_id),
        Formula::Equality { left, left_id, right, right_id } => add_equation(
            new_bindings,
            *left,
            *left_id,
            *right,
            *right_id,
            step_id,
            true,
            Ghost(before),
        ),
        Formula::Inequality { left, left_id, right, right_id } => add_equation(
            new_bindings,
            *left,
            *left_id,
            *right,
            *right_id,
            step_id,
            false,
            Ghost(before),
        ),
        Formula::Exists { params: _, body } => add_goal(ctx, open_conds, new_bindings, body, step_id),
        Formula::Forall { params, body } => {
            let expanded = expand(ctx, params, 0, body, step_id);
            proof {
                assert(params@.skip(0) =~= params@);
                lemma_base_foralls(ctx@, params@, body@, step_id);
            }
            add_goal(ctx, open_conds, new_bindings, &expanded, step_id)
        },
        _ => {
            let oc = OpenCondition { step_id, condition: goal.clone(), when: FormulaTime::AtStart };
            let rest = chain::share(open_conds);
            *open_conds = chain::cons(oc, rest);
            assert(open_views(elements(open_conds)) =~= seq![oc@] + before);
            true
        },
    }
}

/// Adds the binding of an (in)equality; constants are compared at once.
fn add_equation(
    new_bindings: &mut Vec<Binding>,
    left: Term,
    left_id: Option<usize>,
    right: Term,
    right_id: Option<usize>,
    step_id: usize,
    equality: bool,
    Ghost(opens): Ghost<Seq<OpenView>>,
) -> (res: bool)
    ensures
        match with_equation((Agenda { opens, binds: old(new_bindings)@ }), left, left_id, right, right_id, step_id, equality) {
            None => !res,
            Some(b) => res && b.opens == opens && final(new_bindings)@ == b.binds,
        },
{
    if left.object() && right.object() {
        return (left == right) == equality;
    }
    let lid = match left_id {
        Some(i) => i,
        None => step_id,
    };
    let rid = match right_id {
        Some(i) => i,
        None => step_id,
    };
    let b = match left {
        Term::Variable(v) => Binding::new(v, lid, right, rid, equality),
        Term::Object(_) => match right {
            Term::Variable(v) => Binding::new(v, rid, left, lid, equality),
            Term::Object(_) => Binding::new(Variable(0), lid, right, rid, equality),
        },
    };
    new_bindings.push(b);
    true
}

} // verus!
