//! The data model: variables, expressions, clauses and rules.

use vstd::prelude::*;
use crate::bindings::BindingSet;

verus! {

/// A logical variable, identified by its interned number.
#[derive(Clone, Copy, Debug, PartialEq, Eq, Structural, PartialOrd, Ord, Hash)]
pub struct Variable {
    pub id: u64,
}

/// An expression over constants and variables.
///
/// What an operator computes is of no concern here: only the variables that
/// an expression reads matter.
#[derive(Debug, PartialEq, Eq)]
pub enum Expr {
    /// A constant value.
    Const { val: i64 },
    /// The value bound to a variable.
    Binding { var: Variable },
    /// An operator applied to arguments.
    Apply { op: String, args: Vec<Expr> },
}

impl Expr {
    /// The variables that the expression reads.
    pub open spec fn bindings(self) -> Set<Variable>
        decreases self,
    {
        match self {
            Expr::Const { .. } => Set::empty(),
            Expr::Binding { var } => set![var],
            Expr::Apply { args, .. } => Set::new(
                |v: Variable|
                    exists|i: int|
                        0 <= i < args@.len() && (#[trigger] args@[i]).bindings().contains(v),
            ),
        }
    }

    /// Whether `other` is built like `self`: the same constants, variables
    /// and operators in the same places.
    pub open spec fn same_as(self, other: Expr) -> bool
        decreases self,
    {
        match self {
            Expr::Const { val } => other == (Expr::Const { val }),
            Expr::Binding { var } => other == (Expr::Binding { var }),
            Expr::Apply { op, args } => {
                &&& other matches Expr::Apply { op: op2, args: args2 }
                &&& op2@ == op@
                &&& args2@.len() == args@.len()
                &&& forall|i: int|
                    0 <= i < args@.len() ==> (#[trigger] args@[i]).same_as(args2@[i])
            },
        }
    }

    /// Whether the expression is a bare constant.
    pub fn is_const(&self) -> (b: bool)
        ensures
            b == (self is Const),
    {
        match self {
            Expr::Const { .. } => true,
            _ => false,
        }
    }

    /// Whether every variable that the expression reads is in `seen`.
    pub fn is_bound_in(&self, seen: &BindingSet) -> (b: bool)
        ensures
            b == self.bindings().subset_of(seen@),
        decreases self,
    {
        match self {
            Expr::Const { .. } => true,
            Expr::Binding { var } => seen.contains(*var),
            Expr::Apply { args, .. } => {
                let n: usize = args.len();
                for i in 0..n
                    invariant
                        n == args@.len(),
                        *self matches Expr::Apply { args: a, .. } && a == args,
                        forall|j: int|
                            0 <= j < i ==> (#[trigger] args@[j]).bindings().subset_of(seen@),
                {
                    if !args[i].is_bound_in(seen) {
                        return false;
                    }
                }
                true
            },
        }
    }
}

impl Clone for Expr {
    fn clone(&self) -> (res: Self)
        ensures
            self.same_as(res),
        decreases self,
    {
        match self {
            Expr::Const { val } => Expr::Const { val: *val },
            Expr::Binding { var } => Expr::Binding { var: *var },
            Expr::Apply { op, args } => {
                let mut copies: Vec<Expr> = Vec::new();
                let n: usize = args.len();
                for i in 0..n
                    invariant
                        n == args@.len(),
                        *self matches Expr::Apply { args: a, .. } && a == args,
                        copies@.len() == i,
                        forall|j: int| 0 <= j < i ==> (#[trigger] args@[j]).same_as(copies@[j]),
                {
                    let c = args[i].clone();
                    copies.push(c);
                }
                Expr::Apply { op: op.clone(), args: copies }
            },
        }
    }
}

/// The clause `binding = expr`.
#[derive(Clone, Debug, PartialEq, Eq)]
pub struct Unification {
    /// The target: the variable that the clause binds.
    pub binding: Variable,
    /// The right-hand side.
    pub expr: Expr,
}

impl Unification {
    /// The variables that the right-hand side reads.
    pub open spec fn bindings_in_expr(self) -> Set<Variable> {
        self.expr.bindings()
    }

    /// Whether the right-hand side is a bare constant.
    pub fn is_const(&self) -> (b: bool)
        ensures
            b == (self.expr is Const),
            b ==> self.bindings_in_expr() == Set::<Variable>::empty(),
    {
        self.expr.is_const()
    }
}

/// An edge of the stored data: `entity` has `value` for the attribute `attr`.
#[derive(Clone, Debug, PartialEq, Eq)]
pub struct NormalFormAttrTripleAtom {
    pub attr: String,
    pub entity: Variable,
    pub value: Variable,
}

/// The application of the rule `name` to argument variables.
#[derive(Clone, Debug, PartialEq, Eq)]
pub struct NormalFormRuleApplyAtom {
    pub name: String,
    pub args: Vec<Variable>,
}

/// One clause of a rule body.
#[derive(Clone, Debug, PartialEq, Eq)]
pub enum NormalFormAtom {
    /// A rule application. It binds every argument.
    Rule(NormalFormRuleApplyAtom),
    /// A stored edge. It binds its entity and its value.
    AttrTriple(NormalFormAttrTripleAtom),
    /// A negated rule application. It reads every argument and binds none.
    NegatedRule(NormalFormRuleApplyAtom),
    /// A negated edge. It reads its entity and its value and binds neither.
    NegatedAttrTriple(NormalFormAttrTripleAtom),
    /// A filter. It reads the variables of its expression and binds none.
    Predicate(Expr),
    /// A unification. It reads the variables of its right-hand side and
    /// binds its target.
    Unification(Unification),
}

impl NormalFormAtom {
    /// The variables that the clause binds when it is evaluated.
    pub open spec fn binds(self) -> Set<Variable> {
        match self {
            NormalFormAtom::Rule(r) => r.args@.to_set(),
            NormalFormAtom::AttrTriple(t) => set![t.value, t.entity],
            NormalFormAtom::Unification(u) => set![u.binding],
            NormalFormAtom::NegatedRule(_) => Set::empty(),
            NormalFormAtom::NegatedAttrTriple(_) => Set::empty(),
            NormalFormAtom::Predicate(_) => Set::empty(),
        }
    }

    /// The variables that must be bound before the clause is evaluated.
    pub open spec fn consumes(self) -> Set<Variable> {
        match self {
            NormalFormAtom::Rule(_) => Set::empty(),
            NormalFormAtom::AttrTriple(_) => Set::empty(),
            NormalFormAtom::Unification(u) => u.bindings_in_expr(),
            NormalFormAtom::NegatedRule(r) => r.args@.to_set(),
            NormalFormAtom::NegatedAttrTriple(t) => set![t.value, t.entity],
            NormalFormAtom::Predicate(p) => p.bindings(),
        }
    }

    /// Whether the clause only reads variables and binds none: a negation or
    /// a predicate.
    pub open spec fn is_consumer_only(self) -> bool {
        self is NegatedRule || self is NegatedAttrTriple || self is Predicate
    }

    /// Whether the classifier may defer the clause: it is a negation, a
    /// predicate or a unification.
    pub open spec fn is_deferrable(self) -> bool {
        self.is_consumer_only() || self is Unification
    }

    /// Whether every variable that the clause consumes is in `seen`.
    pub fn is_satisfied_by(&self, seen: &BindingSet) -> (b: bool)
        ensures
            b == self.consumes().subset_of(seen@),
    {
        match self {
            NormalFormAtom::Rule(_) => true,
            NormalFormAtom::AttrTriple(_) => true,
            NormalFormAtom::Unification(u) => u.expr.is_bound_in(seen),
            NormalFormAtom::NegatedRule(r) => seen.covers(&r.args),
            NormalFormAtom::NegatedAttrTriple(t) => seen.contains(t.value) && seen.contains(
                t.entity,
            ),
            NormalFormAtom::Predicate(p) => p.is_bound_in(seen),
        }
    }

    /// Adds the variables that the clause binds to `seen`.
    pub fn bind_into(&self, seen: &mut BindingSet)
        ensures
            final(seen)@ == old(seen)@.union(self.binds()),
    {
        match self {
            NormalFormAtom::Rule(r) => {
                seen.bind_all(&r.args);
            },
            NormalFormAtom::AttrTriple(t) => {
                seen.bind(t.value);
                seen.bind(t.entity);
            },
            NormalFormAtom::Unification(u) => {
                seen.bind(u.binding);
            },
            NormalFormAtom::NegatedRule(_) => {},
            NormalFormAtom::NegatedAttrTriple(_) => {},
            NormalFormAtom::Predicate(_) => {},
        }
    }
}

/// How the values of one head variable are aggregated.
#[derive(Clone, Debug, PartialEq, Eq)]
pub struct Aggregation {
    pub name: String,
}

/// The point in time at which the stored data is read.
#[derive(Clone, Copy, Debug, PartialEq, Eq)]
pub struct Validity {
    pub timestamp: i64,
}

/// A rule: the variables of its head, and the clauses of its body.
///
/// The variables of the head count as bound before the first clause runs.
#[derive(Clone, Debug, PartialEq, Eq)]
pub struct NormalFormRule {
    /// The output variables.
    pub head: Vec<Variable>,
    /// The aggregations of the head. The ordering pass hands them on.
    pub aggr: Vec<Option<Aggregation>>,
    /// The clauses.
    pub body: Vec<NormalFormAtom>,
    /// The validity bound. The ordering pass hands it on.
    pub vld: Option<Validity>,
}

/// The clauses of a rule for which no safe place was found.
#[derive(Clone, Debug, PartialEq, Eq)]
pub struct UnsafeRule {
    /// The clauses that were still pending at the end, in body order.
    pub atoms: Vec<NormalFormAtom>,
}

} // verus!
