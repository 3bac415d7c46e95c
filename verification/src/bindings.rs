//! The set of variables that are bound at some point of a rule body.

use std::collections::BTreeSet;
use vstd::prelude::*;
use vstd::std_specs::btree::group_btree_axioms;
use crate::program::Variable;

verus! {

broadcast use {group_btree_axioms, vstd::laws_cmp::group_laws_cmp};

/// A set of bound variables. It only ever grows.
pub struct BindingSet {
    ids: BTreeSet<u64>,
}

impl View for BindingSet {
    type V = Set<Variable>;

    closed spec fn view(&self) -> Set<Variable> {
        Set::new(|v: Variable| self.ids@.contains(v.id))
    }
}

impl BindingSet {
    /// The empty set.
    pub fn new() -> (s: Self)
        ensures
            s@ == Set::<Variable>::empty(),
    {
        BindingSet { ids: BTreeSet::new() }
    }

    /// Adds `v` to the set.
    pub fn bind(&mut self, v: Variable)
        ensures
            final(self)@ == old(self)@.insert(v),
    {
        self.ids.insert(v.id);
    }

    /// Whether `v` is in the set.
    pub fn contains(&self, v: Variable) -> (b: bool)
        ensures
            b == self@.contains(v),
    {
        self.ids.contains(&v.id)
    }

    /// Adds every variable of `vars` to the set.
    pub fn bind_all(&mut self, vars: &Vec<Variable>)
        ensures
            final(self)@ == old(self)@.union(vars@.to_set()),
    {
        let n: usize = vars.len();
        for i in 0..n
            invariant
                n == vars@.len(),
                self@ == old(self)@.union(vars@.take(i as int).to_set()),
        {
            self.bind(vars[i]);
            proof {
                assert(vars@.take(i + 1) =~= vars@.take(i as int).push(vars@[i as int]));
                vars@.take(i as int).lemma_push_to_set_commute(vars@[i as int]);
            }
        }
        assert(vars@.take(n as int) =~= vars@);
    }

    /// Whether every variable of `vars` is in the set.
    pub fn covers(&self, vars: &Vec<Variable>) -> (b: bool)
        ensures
            b == vars@.to_set().subset_of(self@),
    {
        let n: usize = vars.len();
        for i in 0..n
            invariant
                n == vars@.len(),
                forall|j: int| 0 <= j < i ==> self@.contains(#[trigger] vars@[j]),
        {
            if !self.contains(vars[i]) {
                return false;
            }
        }
        true
    }
}

} // verus!
