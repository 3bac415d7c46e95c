//! The ordering pass on rules.

use vstd::prelude::*;
use crate::bindings::BindingSet;
use crate::laws::{lemma_order_is_complete, lemma_order_is_safe};
use crate::lemmas::lemma_classified_backbone_is_safe;
use crate::model::{
    admitted, classified, is_rejected, is_resolvable, is_safe_order, scheduled, well_ordered,
};
use crate::program::{NormalFormAtom, NormalFormRule, UnsafeRule, Variable};

verus! {

/// Splits `body` into the backbone and the pending clauses.
///
/// A clause goes to the backbone if it binds something and all that it reads
/// is in `head` or bound by the backbone so far. Negations and predicates
/// always go to the pending list.
pub fn classify(head: &Vec<Variable>, body: Vec<NormalFormAtom>) -> (res: (
    Vec<NormalFormAtom>,
    Vec<NormalFormAtom>,
))
    ensures
        res.0@ == classified(head@.to_set(), body@).backbone,
        res.1@ == classified(head@.to_set(), body@).pending,
        forall|k: int| 0 <= k < res.0@.len() ==> !(#[trigger] res.0@[k]).is_consumer_only(),
        forall|k: int| 0 <= k < res.1@.len() ==> (#[trigger] res.1@[k]).is_deferrable(),
{
    let mut seen = BindingSet::new();
    seen.bind_all(head);
    let mut backbone: Vec<NormalFormAtom> = Vec::new();
    let mut pending: Vec<NormalFormAtom> = Vec::new();
    let ghost all = body@;
    for atom in it: body
        invariant
            it.seq() == all,
            seen@ == classified(head@.to_set(), all.take(it.index())).seen,
            backbone@ == classified(head@.to_set(), all.take(it.index())).backbone,
            pending@ == classified(head@.to_set(), all.take(it.index())).pending,
    {
        proof {
            let k = it.index();
            assert(all.take(k + 1).drop_last() =~= all.take(k));
        }
        let resolvable = match &atom {
            NormalFormAtom::Unification(u) => u.is_const() || u.expr.is_bound_in(&seen),
            NormalFormAtom::AttrTriple(_) => true,
            NormalFormAtom::Rule(_) => true,
            NormalFormAtom::NegatedAttrTriple(_) => false,
            NormalFormAtom::NegatedRule(_) => false,
            NormalFormAtom::Predicate(_) => false,
        };
        assert(resolvable == is_resolvable(atom, seen@));
        if resolvable {
            atom.bind_into(&mut seen);
            backbone.push(atom);
        } else {
            pending.push(atom);
        }
    }
    proof {
        assert(all.take(all.len() as int) =~= all);
        lemma_classified_backbone_is_safe(head@.to_set(), all);
    }
    (backbone, pending)
}

/// Runs one round of admission over `last_pending`.
///
/// Each clause whose variables are all in `seen` is appended to `collected`,
/// and what it binds is added to `seen` before the next clause is looked at.
/// The other clauses are returned, in their old order, for the next round.
pub fn admit_round(
    seen: &mut BindingSet,
    last_pending: Vec<NormalFormAtom>,
    collected: &mut Vec<NormalFormAtom>,
) -> (pending: Vec<NormalFormAtom>)
    requires
        forall|k: int| 0 <= k < last_pending@.len() ==> (#[trigger] last_pending@[k]).is_deferrable(),
    ensures
        forall|k: int| 0 <= k < pending@.len() ==> (#[trigger] pending@[k]).is_deferrable(),
        final(seen)@ == admitted(old(seen)@, last_pending@).seen,
        final(collected)@ == old(collected)@ + admitted(old(seen)@, last_pending@).admitted,
        pending@ == admitted(old(seen)@, last_pending@).carried,
{
    let mut pending: Vec<NormalFormAtom> = Vec::new();
    let ghost all = last_pending@;
    for atom in it: last_pending
        invariant
            it.seq() == all,
            seen@ == admitted(old(seen)@, all.take(it.index())).seen,
            collected@ == old(collected)@ + admitted(old(seen)@, all.take(it.index())).admitted,
            pending@ == admitted(old(seen)@, all.take(it.index())).carried,
            forall|k: int| 0 <= k < all.len() ==> (#[trigger] all[k]).is_deferrable(),
            forall|k: int| 0 <= k < pending@.len() ==> (#[trigger] pending@[k]).is_deferrable(),
    {
        proof {
            let k = it.index();
            assert(all.take(k + 1).drop_last() =~= all.take(k));
            // a clause that always binds is never pending
            assert(all[k].is_deferrable());
        }
        if atom.is_satisfied_by(seen) {
            atom.bind_into(seen);
            collected.push(atom);
            assert(collected@ =~= old(collected)@ + admitted(
                old(seen)@,
                all.take(it.index() + 1),
            ).admitted);
        } else {
            pending.push(atom);
        }
    }
    assert(all.take(all.len() as int) =~= all);
    pending
}

/// Walks the backbone and places every clause.
///
/// Each backbone clause is placed in turn; after it, one round of admission
/// runs over the clauses that are still pending. Returns the clauses in
/// evaluation order, and those that were never admitted.
pub fn schedule(
    head: &Vec<Variable>,
    backbone: Vec<NormalFormAtom>,
    pending: Vec<NormalFormAtom>,
) -> (res: (Vec<NormalFormAtom>, Vec<NormalFormAtom>))
    requires
        forall|k: int| 0 <= k < backbone@.len() ==> !(#[trigger] backbone@[k]).is_consumer_only(),
        forall|k: int| 0 <= k < pending@.len() ==> (#[trigger] pending@[k]).is_deferrable(),
    ensures
        res.0@ == scheduled(head@.to_set(), backbone@, pending@).ordered,
        res.1@ == scheduled(head@.to_set(), backbone@, pending@).pending,
{
    let mut seen = BindingSet::new();
    seen.bind_all(head);
    let mut collected: Vec<NormalFormAtom> = Vec::new();
    let mut waiting = pending;
    let ghost all = backbone@;
    for atom in it: backbone
        invariant
            it.seq() == all,
            seen@ == scheduled(head@.to_set(), all.take(it.index()), pending@).seen,
            collected@ == scheduled(head@.to_set(), all.take(it.index()), pending@).ordered,
            waiting@ == scheduled(head@.to_set(), all.take(it.index()), pending@).pending,
            forall|k: int| 0 <= k < all.len() ==> !(#[trigger] all[k]).is_consumer_only(),
            forall|k: int| 0 <= k < waiting@.len() ==> (#[trigger] waiting@[k]).is_deferrable(),
    {
        proof {
            let k = it.index();
            assert(all.take(k + 1).drop_last() =~= all.take(k));
            // a negation or a predicate never stands on the backbone
            assert(!all[k].is_consumer_only());
        }
        atom.bind_into(&mut seen);
        collected.push(atom);
        waiting = admit_round(&mut seen, waiting, &mut collected);
    }
    assert(all.take(all.len() as int) =~= all);
    (collected, waiting)
}

impl NormalFormRule {
    /// Whether `res` is what the ordering pass makes of this rule.
    ///
    /// The pass succeeds exactly if it leaves no clause pending. Then the
    /// rule comes back with its body in the computed order and everything
    /// else as it was. Otherwise the error holds the clauses left pending.
    pub open spec fn is_ordered_as(self, res: Result<NormalFormRule, UnsafeRule>) -> bool {
        let s = well_ordered(self.head@, self.body@);
        match res {
            Ok(rule) => {
                &&& !is_rejected(self.head@, self.body@)
                &&& rule.head == self.head
                &&& rule.aggr == self.aggr
                &&& rule.vld == self.vld
                &&& rule.body@ == s.ordered
            },
            Err(e) => {
                &&& is_rejected(self.head@, self.body@)
                &&& e.atoms@ == s.pending
            },
        }
    }

    /// Orders the body so that every clause finds its variables bound.
    ///
    /// Returns the rule with its body in evaluation order and everything else
    /// unchanged, or, if some clause was never admitted, the clauses that
    /// were left.
    pub fn convert_to_well_ordered_rule(self) -> (res: Result<NormalFormRule, UnsafeRule>)
        ensures
            self.is_ordered_as(res),
            res is Err <==> is_rejected(self.head@, self.body@),
            res matches Ok(rule) ==> {
                &&& is_safe_order(rule.head@.to_set(), rule.body@)
                &&& rule.body@.to_multiset() == self.body@.to_multiset()
            },
    {
        let (backbone, pending) = classify(&self.head, self.body);
        let (collected, pending) = schedule(&self.head, backbone, pending);
        if pending.len() > 0 {
            return Err(UnsafeRule { atoms: pending });
        }
        proof {
            lemma_order_is_safe(self.head@, self.body@);
            lemma_order_is_complete(self.head@, self.body@);
        }
        Ok(NormalFormRule { head: self.head, aggr: self.aggr, body: collected, vld: self.vld })
    }
}

} // verus!
