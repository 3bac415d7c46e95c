//! Lemmas on the two phases of the ordering pass, one phase at a time.

use vstd::prelude::*;
use vstd::seq_lib::lemma_multiset_commutative;
use crate::model::{
    admitted, backbone_places, bound_by, classified, is_resolvable, is_safe_order, occurs_at,
    scheduled,
};
use crate::program::{NormalFormAtom, Variable};

verus! {

/// Appending a clause adds what it binds to the bound variables.
pub proof fn lemma_bound_by_push(
    head: Set<Variable>,
    body: Seq<NormalFormAtom>,
    atom: NormalFormAtom,
)
    ensures
        bound_by(head, body.push(atom)) == bound_by(head, body).union(atom.binds()),
{
    let ext = body.push(atom);
    let a = bound_by(head, ext);
    let b = bound_by(head, body).union(atom.binds());
    assert forall|v: Variable| a.contains(v) implies b.contains(v) by {
        if !head.contains(v) {
            let j = choose|j: int| 0 <= j < ext.len() && (#[trigger] ext[j]).binds().contains(v);
            assert(j < body.len() ==> body[j] == ext[j]);
        }
    }
    assert forall|v: Variable| b.contains(v) implies a.contains(v) by {
        if head.contains(v) {
        } else if atom.binds().contains(v) {
            assert(ext[body.len() as int] == atom);
        } else {
            let j = choose|j: int| 0 <= j < body.len() && (#[trigger] body[j]).binds().contains(v);
            assert(ext[j] == body[j]);
        }
    }
}

/// The variables bound after `a + b` are those bound after `b` when it starts
/// from what is bound after `a`.
pub proof fn lemma_bound_by_append(
    head: Set<Variable>,
    a: Seq<NormalFormAtom>,
    b: Seq<NormalFormAtom>,
)
    ensures
        bound_by(head, a + b) == bound_by(bound_by(head, a), b),
    decreases b.len(),
{
    if b.len() == 0 {
        assert(a + b =~= a);
    } else {
        let init = b.drop_last();
        lemma_bound_by_append(head, a, init);
        assert(b =~= init.push(b.last()));
        assert(a + b =~= (a + init).push(b.last()));
        lemma_bound_by_push(head, a + init, b.last());
        lemma_bound_by_push(bound_by(head, a), init, b.last());
    }
}

/// More variables at the start leave more variables bound at the end.
pub proof fn lemma_bound_by_grows(
    small: Set<Variable>,
    large: Set<Variable>,
    body: Seq<NormalFormAtom>,
)
    requires
        small.subset_of(large),
    ensures
        bound_by(small, body).subset_of(bound_by(large, body)),
        large.subset_of(bound_by(large, body)),
{
}

/// A prefix binds no more than the whole.
pub proof fn lemma_bound_by_prefix(head: Set<Variable>, body: Seq<NormalFormAtom>, n: int)
    requires
        0 <= n <= body.len(),
    ensures
        bound_by(head, body.take(n)).subset_of(bound_by(head, body)),
{
    assert forall|v: Variable| bound_by(head, body.take(n)).contains(v) implies bound_by(
        head,
        body,
    ).contains(v) by {
        if !head.contains(v) {
            let j = choose|j: int|
                0 <= j < body.take(n).len() && (#[trigger] body.take(n)[j]).binds().contains(v);
            assert(body[j] == body.take(n)[j]);
        }
    }
}

/// Two lists that hold the same clauses bind the same variables.
pub proof fn lemma_bound_by_same_clauses(
    head: Set<Variable>,
    a: Seq<NormalFormAtom>,
    b: Seq<NormalFormAtom>,
)
    requires
        a.to_multiset() == b.to_multiset(),
    ensures
        bound_by(head, a) == bound_by(head, b),
{
    broadcast use vstd::seq_lib::group_to_multiset_ensures;

    assert forall|v: Variable| bound_by(head, a).contains(v) implies bound_by(head, b).contains(
        v,
    ) by {
        if !head.contains(v) {
            let j = choose|j: int| 0 <= j < a.len() && (#[trigger] a[j]).binds().contains(v);
            assert(a.contains(a[j]));
            assert(b.to_multiset().count(a[j]) > 0);
            let k = choose|k: int| 0 <= k < b.len() && b[k] == a[j];
            assert(b[k].binds().contains(v));
        }
    }
    assert forall|v: Variable| bound_by(head, b).contains(v) implies bound_by(head, a).contains(
        v,
    ) by {
        if !head.contains(v) {
            let j = choose|j: int| 0 <= j < b.len() && (#[trigger] b[j]).binds().contains(v);
            assert(b.contains(b[j]));
            assert(a.to_multiset().count(b[j]) > 0);
            let k = choose|k: int| 0 <= k < a.len() && a[k] == b[j];
            assert(a[k].binds().contains(v));
        }
    }
}

/// A safe order stays safe when a clause is appended whose variables are
/// bound by then.
pub proof fn lemma_safe_push(head: Set<Variable>, body: Seq<NormalFormAtom>, atom: NormalFormAtom)
    requires
        is_safe_order(head, body),
        atom.consumes().subset_of(bound_by(head, body)),
    ensures
        is_safe_order(head, body.push(atom)),
{
    let ext = body.push(atom);
    assert forall|i: int| 0 <= i < ext.len() implies (#[trigger] ext[i]).consumes().subset_of(
        bound_by(head, ext.take(i)),
    ) by {
        if i < body.len() {
            assert(ext.take(i) =~= body.take(i));
        } else {
            assert(ext.take(i) =~= body);
        }
    }
}

/// Two safe orders in a row are a safe order, if the second starts from what
/// the first leaves bound.
pub proof fn lemma_safe_append(
    head: Set<Variable>,
    a: Seq<NormalFormAtom>,
    b: Seq<NormalFormAtom>,
)
    requires
        is_safe_order(head, a),
        is_safe_order(bound_by(head, a), b),
    ensures
        is_safe_order(head, a + b),
{
    let whole = a + b;
    assert forall|i: int| 0 <= i < whole.len() implies (#[trigger] whole[i]).consumes().subset_of(
        bound_by(head, whole.take(i)),
    ) by {
        if i < a.len() {
            assert(whole.take(i) =~= a.take(i));
        } else {
            let k = i - a.len();
            assert(whole.take(i) =~= a + b.take(k));
            lemma_bound_by_append(head, a, b.take(k));
        }
    }
}

/// A prefix of a safe order is a safe order.
pub proof fn lemma_safe_prefix(head: Set<Variable>, body: Seq<NormalFormAtom>, n: int)
    requires
        is_safe_order(head, body),
        0 <= n <= body.len(),
    ensures
        is_safe_order(head, body.take(n)),
{
    let pre = body.take(n);
    assert forall|i: int| 0 <= i < pre.len() implies (#[trigger] pre[i]).consumes().subset_of(
        bound_by(head, pre.take(i)),
    ) by {
        assert(pre.take(i) =~= body.take(i));
    }
}

/// The classifier drops and repeats nothing: its two lists together hold
/// the clauses of the body, each as often as the body does.
pub proof fn lemma_classified_is_split(head: Set<Variable>, body: Seq<NormalFormAtom>)
    ensures
        classified(head, body).backbone.to_multiset().add(
            classified(head, body).pending.to_multiset(),
        ) == body.to_multiset(),
    decreases body.len(),
{
    broadcast use vstd::seq_lib::group_to_multiset_ensures, vstd::multiset::group_multiset_axioms;

    let p = classified(head, body);
    if body.len() == 0 {
        lemma_multiset_commutative(p.backbone, p.pending);
    } else {
        let q = classified(head, body.drop_last());
        lemma_classified_is_split(head, body.drop_last());
        assert(body =~= body.drop_last().push(body.last()));
        assert(p.backbone.to_multiset().add(p.pending.to_multiset()) =~= q.backbone.to_multiset().add(
            q.pending.to_multiset(),
        ).insert(body.last()));
    }
}

/// The backbone is a safe order by itself, holds no negation and no
/// predicate, and binds, with the head, exactly what the classifier has seen.
/// A pending clause is a negation, a predicate or a unification.
pub proof fn lemma_classified_backbone_is_safe(head: Set<Variable>, body: Seq<NormalFormAtom>)
    ensures
        classified(head, body).seen == bound_by(head, classified(head, body).backbone),
        is_safe_order(head, classified(head, body).backbone),
        forall|k: int|
            0 <= k < classified(head, body).backbone.len() ==> !(#[trigger] classified(
                head,
                body,
            ).backbone[k]).is_consumer_only(),
        forall|k: int|
            0 <= k < classified(head, body).pending.len() ==> (#[trigger] classified(
                head,
                body,
            ).pending[k]).is_deferrable(),
    decreases body.len(),
{
    if body.len() > 0 {
        let q = classified(head, body.drop_last());
        lemma_classified_backbone_is_safe(head, body.drop_last());
        if is_resolvable(body.last(), q.seen) {
            lemma_bound_by_push(head, q.backbone, body.last());
            lemma_safe_push(head, q.backbone, body.last());
        }
    }
}

/// A round drops and repeats nothing: the admitted and the carried clauses
/// together are the pending clauses.
pub proof fn lemma_admitted_is_split(seen: Set<Variable>, pending: Seq<NormalFormAtom>)
    ensures
        admitted(seen, pending).admitted.to_multiset().add(
            admitted(seen, pending).carried.to_multiset(),
        ) == pending.to_multiset(),
    decreases pending.len(),
{
    broadcast use vstd::seq_lib::group_to_multiset_ensures, vstd::multiset::group_multiset_axioms;

    let r = admitted(seen, pending);
    if pending.len() == 0 {
        lemma_multiset_commutative(r.admitted, r.carried);
    } else {
        let q = admitted(seen, pending.drop_last());
        lemma_admitted_is_split(seen, pending.drop_last());
        assert(pending =~= pending.drop_last().push(pending.last()));
        assert(r.admitted.to_multiset().add(r.carried.to_multiset()) =~= q.admitted.to_multiset().add(
            q.carried.to_multiset(),
        ).insert(pending.last()));
    }
}

/// The clauses that a round admits are a safe order from what was bound at
/// its start, and the round ends with exactly what they bind in addition.
pub proof fn lemma_admitted_is_safe(seen: Set<Variable>, pending: Seq<NormalFormAtom>)
    ensures
        admitted(seen, pending).seen == bound_by(seen, admitted(seen, pending).admitted),
        is_safe_order(seen, admitted(seen, pending).admitted),
    decreases pending.len(),
{
    if pending.len() > 0 {
        let q = admitted(seen, pending.drop_last());
        lemma_admitted_is_safe(seen, pending.drop_last());
        if pending.last().consumes().subset_of(q.seen) {
            lemma_bound_by_push(seen, q.admitted, pending.last());
            lemma_safe_push(seen, q.admitted, pending.last());
        }
    }
}

/// A round carries only clauses that were pending.
pub proof fn lemma_carried_were_pending(seen: Set<Variable>, pending: Seq<NormalFormAtom>)
    ensures
        forall|j: int|
            0 <= j < admitted(seen, pending).carried.len() ==> pending.contains(
                #[trigger] admitted(seen, pending).carried[j],
            ),
    decreases pending.len(),
{
    let r = admitted(seen, pending);
    if pending.len() > 0 {
        let init = pending.drop_last();
        let q = admitted(seen, init);
        lemma_carried_were_pending(seen, init);
        assert forall|j: int| 0 <= j < r.carried.len() implies pending.contains(
            #[trigger] r.carried[j],
        ) by {
            if j < q.carried.len() {
                let k = choose|k: int| 0 <= k < init.len() && init[k] == q.carried[j];
                assert(pending[k] == q.carried[j]);
            } else {
                assert(r.carried[j] == pending[pending.len() - 1]);
            }
        }
    }
}

/// A round admits every clause if each finds its variables bound at the
/// start of the round.
pub proof fn lemma_covered_are_admitted(seen: Set<Variable>, pending: Seq<NormalFormAtom>)
    requires
        forall|j: int| 0 <= j < pending.len() ==> (#[trigger] pending[j]).consumes().subset_of(seen),
    ensures
        admitted(seen, pending).carried.len() == 0,
    decreases pending.len(),
{
    if pending.len() > 0 {
        let init = pending.drop_last();
        assert forall|j: int| 0 <= j < init.len() implies (#[trigger] init[j]).consumes().subset_of(
            seen,
        ) by {
            assert(init[j] == pending[j]);
        }
        lemma_covered_are_admitted(seen, init);
        lemma_admitted_is_safe(seen, init);
        lemma_bound_by_grows(seen, seen, admitted(seen, init).admitted);
    }
}

/// The scheduler drops and repeats nothing: the placed clauses and those
/// still pending together are the backbone and the pending list it was given.
pub proof fn lemma_scheduled_is_split(
    head: Set<Variable>,
    backbone: Seq<NormalFormAtom>,
    pending: Seq<NormalFormAtom>,
)
    ensures
        scheduled(head, backbone, pending).ordered.to_multiset().add(
            scheduled(head, backbone, pending).pending.to_multiset(),
        ) == backbone.to_multiset().add(pending.to_multiset()),
    decreases backbone.len(),
{
    broadcast use vstd::seq_lib::group_to_multiset_ensures, vstd::multiset::group_multiset_axioms;

    let s = scheduled(head, backbone, pending);
    if backbone.len() == 0 {
        lemma_multiset_commutative(s.ordered, s.pending);
        lemma_multiset_commutative(backbone, pending);
    } else {
        let atom = backbone.last();
        let q = scheduled(head, backbone.drop_last(), pending);
        let round = admitted(q.seen.union(atom.binds()), q.pending);
        lemma_scheduled_is_split(head, backbone.drop_last(), pending);
        lemma_admitted_is_split(q.seen.union(atom.binds()), q.pending);
        lemma_multiset_commutative(q.ordered.push(atom), round.admitted);
        assert(backbone =~= backbone.drop_last().push(atom));
        assert(s.ordered.to_multiset().add(s.pending.to_multiset()) =~= q.ordered.to_multiset().add(
            q.pending.to_multiset(),
        ).insert(atom));
    }
}

/// Given a backbone that is a safe order by itself, the scheduler places the
/// clauses in a safe order, and ends with exactly what they and the head bind.
pub proof fn lemma_scheduled_is_safe(
    head: Set<Variable>,
    backbone: Seq<NormalFormAtom>,
    pending: Seq<NormalFormAtom>,
)
    requires
        is_safe_order(head, backbone),
    ensures
        scheduled(head, backbone, pending).seen == bound_by(
            head,
            scheduled(head, backbone, pending).ordered,
        ),
        bound_by(head, backbone).subset_of(scheduled(head, backbone, pending).seen),
        is_safe_order(head, scheduled(head, backbone, pending).ordered),
    decreases backbone.len(),
{
    if backbone.len() > 0 {
        let atom = backbone.last();
        let init = backbone.drop_last();
        let q = scheduled(head, init, pending);
        let start = q.seen.union(atom.binds());
        let round = admitted(start, q.pending);
        assert(init =~= backbone.take(backbone.len() - 1));
        lemma_safe_prefix(head, backbone, backbone.len() - 1);
        lemma_scheduled_is_safe(head, init, pending);
        // the backbone clause finds its variables bound
        assert(atom.consumes().subset_of(bound_by(head, init)));
        lemma_safe_push(head, q.ordered, atom);
        lemma_bound_by_push(head, q.ordered, atom);
        // and so does every clause that the round admits after it
        lemma_admitted_is_safe(start, q.pending);
        lemma_safe_append(head, q.ordered.push(atom), round.admitted);
        lemma_bound_by_append(head, q.ordered.push(atom), round.admitted);
        // the backbone's bindings are among those bound at the end
        assert(backbone =~= init.push(atom));
        lemma_bound_by_push(head, init, atom);
        lemma_bound_by_grows(start, start, round.admitted);
    }
}

/// The scheduler keeps the backbone in its order: each backbone clause stands
/// in the result at its place, and the places increase along the backbone.
pub proof fn lemma_scheduled_keeps_backbone(
    head: Set<Variable>,
    backbone: Seq<NormalFormAtom>,
    pending: Seq<NormalFormAtom>,
)
    ensures
        occurs_at(
            backbone,
            scheduled(head, backbone, pending).ordered,
            backbone_places(head, backbone, pending),
        ),
    decreases backbone.len(),
{
    if backbone.len() > 0 {
        let init = backbone.drop_last();
        let q = scheduled(head, init, pending);
        let s = scheduled(head, backbone, pending);
        let at = backbone_places(head, backbone, pending);
        lemma_scheduled_keeps_backbone(head, init, pending);
        let before = backbone_places(head, init, pending);
        assert forall|k: int| 0 <= k < at.len() implies 0 <= #[trigger] at[k] < s.ordered.len()
            && s.ordered[at[k]] == backbone[k] by {
            if k < init.len() {
                assert(at[k] == before[k] && s.ordered[at[k]] == q.ordered[at[k]]);
            }
        }
        assert forall|k: int, l: int| 0 <= k < l < at.len() implies #[trigger] at[k]
            < #[trigger] at[l] by {
            assert(at[k] == before[k]);
            assert(l < init.len() ==> at[l] == before[l]);
        }
    }
}

/// What the scheduler leaves pending was pending at its start.
pub proof fn lemma_left_were_pending(
    head: Set<Variable>,
    backbone: Seq<NormalFormAtom>,
    pending: Seq<NormalFormAtom>,
)
    ensures
        forall|j: int|
            0 <= j < scheduled(head, backbone, pending).pending.len() ==> pending.contains(
                #[trigger] scheduled(head, backbone, pending).pending[j],
            ),
    decreases backbone.len(),
{
    let s = scheduled(head, backbone, pending);
    if backbone.len() > 0 {
        let q = scheduled(head, backbone.drop_last(), pending);
        let start = q.seen.union(backbone.last().binds());
        lemma_left_were_pending(head, backbone.drop_last(), pending);
        lemma_carried_were_pending(start, q.pending);
        assert forall|j: int| 0 <= j < s.pending.len() implies pending.contains(
            #[trigger] s.pending[j],
        ) by {
            let k = choose|k: int| 0 <= k < q.pending.len() && q.pending[k] == s.pending[j];
            assert(pending.contains(q.pending[k]));
        }
    }
}

} // verus!
