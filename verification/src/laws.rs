//! What holds of every run of the ordering pass.

use vstd::prelude::*;
use vstd::seq_lib::lemma_multiset_commutative;
use crate::lemmas::{
    lemma_bound_by_append, lemma_bound_by_grows, lemma_bound_by_prefix, lemma_bound_by_push,
    lemma_bound_by_same_clauses, lemma_classified_backbone_is_safe, lemma_classified_is_split,
    lemma_covered_are_admitted, lemma_left_were_pending, lemma_safe_prefix,
    lemma_scheduled_is_safe, lemma_scheduled_is_split, lemma_scheduled_keeps_backbone,
};
use crate::model::{
    backbone_places, bound_by, classified, generated, has_unbound_clause, has_uncovered_clause,
    is_rejected, is_safe_order, occurs_at, scheduled, well_ordered,
};
use crate::program::{NormalFormAtom, NormalFormRule, UnsafeRule, Variable};

verus! {

/// Determinism: two runs of the pass on rules with the same head and the
/// same body end alike, with the same order or with the same clauses left.
pub proof fn lemma_ordering_is_deterministic(
    rule: NormalFormRule,
    again: NormalFormRule,
    first: Result<NormalFormRule, UnsafeRule>,
    second: Result<NormalFormRule, UnsafeRule>,
)
    requires
        rule.head@ == again.head@,
        rule.body@ == again.body@,
        rule.is_ordered_as(first),
        again.is_ordered_as(second),
    ensures
        first is Ok <==> second is Ok,
        first is Ok ==> first->Ok_0.body@ == second->Ok_0.body@,
        first is Err ==> first->Err_0.atoms@ == second->Err_0.atoms@,
{
}

/// Safety: in the order that the pass computes, every variable that a clause
/// consumes is a head variable or bound by a clause before it.
pub proof fn lemma_order_is_safe(head: Seq<Variable>, body: Seq<NormalFormAtom>)
    ensures
        is_safe_order(head.to_set(), well_ordered(head, body).ordered),
{
    let p = classified(head.to_set(), body);
    lemma_classified_backbone_is_safe(head.to_set(), body);
    lemma_scheduled_is_safe(head.to_set(), p.backbone, p.pending);
}

/// Completeness: the placed clauses and the clauses left pending together
/// are the clauses of the body, each as often as the body holds it. So when
/// nothing is left pending, the computed order is a permutation of the body.
pub proof fn lemma_order_is_complete(head: Seq<Variable>, body: Seq<NormalFormAtom>)
    ensures
        well_ordered(head, body).ordered.to_multiset().add(
            well_ordered(head, body).pending.to_multiset(),
        ) == body.to_multiset(),
        !is_rejected(head, body) ==> well_ordered(head, body).ordered.to_multiset()
            == body.to_multiset(),
{
    broadcast use vstd::seq_lib::group_to_multiset_ensures, vstd::multiset::group_multiset_axioms;

    let p = classified(head.to_set(), body);
    let s = well_ordered(head, body);
    lemma_classified_is_split(head.to_set(), body);
    lemma_scheduled_is_split(head.to_set(), p.backbone, p.pending);
    if !is_rejected(head, body) {
        assert(s.ordered.to_multiset().add(s.pending.to_multiset()) =~= s.ordered.to_multiset());
    }
}

/// Backbone order: the clauses that the classifier found resolvable stand in
/// the computed order in the order of the classifier's list.
pub proof fn lemma_backbone_order_is_kept(head: Seq<Variable>, body: Seq<NormalFormAtom>)
    ensures
        occurs_at(
            classified(head.to_set(), body).backbone,
            well_ordered(head, body).ordered,
            backbone_places(
                head.to_set(),
                classified(head.to_set(), body).backbone,
                classified(head.to_set(), body).pending,
            ),
        ),
{
    let p = classified(head.to_set(), body);
    lemma_scheduled_keeps_backbone(head.to_set(), p.backbone, p.pending);
}

/// A rule is rejected if one of its clauses consumes a variable that neither
/// the head nor any clause of the body binds.
pub proof fn lemma_unbound_clause_is_rejected(head: Seq<Variable>, body: Seq<NormalFormAtom>)
    requires
        has_unbound_clause(head.to_set(), body),
    ensures
        is_rejected(head, body),
{
    broadcast use vstd::seq_lib::group_to_multiset_ensures;

    let h = head.to_set();
    let s = well_ordered(head, body);
    if s.pending.len() == 0 {
        let i = choose|i: int|
            0 <= i < body.len() && !(#[trigger] body[i]).consumes().subset_of(bound_by(h, body));
        // the clause has a place in the computed order, which is safe
        lemma_order_is_complete(head, body);
        lemma_order_is_safe(head, body);
        assert(body.contains(body[i]));
        assert(s.ordered.to_multiset().count(body[i]) > 0);
        let k = choose|k: int| 0 <= k < s.ordered.len() && s.ordered[k] == body[i];
        assert(s.ordered[k].consumes().subset_of(bound_by(h, s.ordered.take(k))));
        // so something in the body binds each of its variables
        lemma_bound_by_prefix(h, s.ordered, k);
        lemma_bound_by_same_clauses(h, s.ordered, body);
        assert(false);
    }
}

/// A rule with a clause on its backbone is accepted if every deferred clause
/// consumes only variables that the head or the backbone binds. So is a rule
/// that defers nothing.
pub proof fn lemma_covered_rule_is_accepted(head: Seq<Variable>, body: Seq<NormalFormAtom>)
    requires
        classified(head.to_set(), body).backbone.len() > 0 || classified(
            head.to_set(),
            body,
        ).pending.len() == 0,
        !has_uncovered_clause(head.to_set(), body),
    ensures
        !is_rejected(head, body),
{
    let h = head.to_set();
    let p = classified(h, body);
    if p.backbone.len() > 0 {
        let last = p.backbone.last();
        let init = p.backbone.drop_last();
        let q = scheduled(h, init, p.pending);
        let start = q.seen.union(last.binds());
        // the last round starts with all that the head and the backbone bind
        lemma_classified_backbone_is_safe(h, body);
        assert(init =~= p.backbone.take(p.backbone.len() - 1));
        lemma_safe_prefix(h, p.backbone, p.backbone.len() - 1);
        lemma_scheduled_is_safe(h, init, p.pending);
        assert(p.backbone =~= init.push(last));
        lemma_bound_by_push(h, init, last);
        assert(generated(h, body).subset_of(start));
        // so it admits whatever is still pending
        lemma_left_were_pending(h, init, p.pending);
        assert forall|j: int| 0 <= j < q.pending.len() implies (#[trigger] q.pending[j])
            .consumes().subset_of(start) by {
            let k = choose|k: int| 0 <= k < p.pending.len() && p.pending[k] == q.pending[j];
            assert(p.pending[k].consumes().subset_of(generated(h, body)));
        }
        lemma_covered_are_admitted(start, q.pending);
    }
}

/// A clause that consumes a variable that nothing binds is a deferred clause
/// that the head and the backbone do not cover.
pub proof fn lemma_unbound_clause_is_uncovered(head: Seq<Variable>, body: Seq<NormalFormAtom>)
    requires
        has_unbound_clause(head.to_set(), body),
    ensures
        has_uncovered_clause(head.to_set(), body),
{
    broadcast use vstd::seq_lib::group_to_multiset_ensures, vstd::multiset::group_multiset_axioms;

    let h = head.to_set();
    let p = classified(h, body);
    let i = choose|i: int|
        0 <= i < body.len() && !(#[trigger] body[i]).consumes().subset_of(bound_by(h, body));
    let atom = body[i];
    // the body binds what the backbone binds, and more
    lemma_classified_is_split(h, body);
    lemma_multiset_commutative(p.backbone, p.pending);
    lemma_bound_by_same_clauses(h, body, p.backbone + p.pending);
    lemma_bound_by_append(h, p.backbone, p.pending);
    lemma_bound_by_grows(generated(h, body), generated(h, body), p.pending);
    // the clause is on one of the two lists, and the backbone is covered
    assert(p.backbone.to_multiset().add(p.pending.to_multiset()).count(atom) > 0);
    if p.backbone.contains(atom) {
        let k = choose|k: int| 0 <= k < p.backbone.len() && p.backbone[k] == atom;
        lemma_classified_backbone_is_safe(h, body);
        assert(p.backbone[k].consumes().subset_of(bound_by(h, p.backbone.take(k))));
        lemma_bound_by_prefix(h, p.backbone, k);
        assert(false);
    }
    let j = choose|j: int| 0 <= j < p.pending.len() && p.pending[j] == atom;
    assert(!p.pending[j].consumes().subset_of(generated(h, body)));
}

/// Rejection: a rule is rejected exactly if one of its deferred clauses
/// consumes a variable that neither the head nor the backbone binds, and
/// exactly if one of its clauses consumes a variable that nothing binds.
///
/// Two sorts of rules are left out. A rule with an empty backbone runs no
/// round, so it is rejected even if the head covers all its clauses. And
/// where the deferred unifications bind all that the backbone leaves
/// uncovered, the order of the deferred clauses decides.
pub proof fn lemma_rejected_iff_uncovered(head: Seq<Variable>, body: Seq<NormalFormAtom>)
    requires
        classified(head.to_set(), body).backbone.len() > 0 || classified(
            head.to_set(),
            body,
        ).pending.len() == 0 || has_uncovered_clause(head.to_set(), body),
        has_uncovered_clause(head.to_set(), body) ==> has_unbound_clause(head.to_set(), body),
    ensures
        is_rejected(head, body) <==> has_uncovered_clause(head.to_set(), body),
        is_rejected(head, body) <==> has_unbound_clause(head.to_set(), body),
{
    if has_uncovered_clause(head.to_set(), body) {
        lemma_unbound_clause_is_rejected(head, body);
    } else {
        lemma_covered_rule_is_accepted(head, body);
        if has_unbound_clause(head.to_set(), body) {
            lemma_unbound_clause_is_uncovered(head, body);
        }
    }
}

} // verus!
