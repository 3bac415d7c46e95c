//! The mathematical model of the ordering pass.
//!
//! The pass has two phases. The classifier scans the body once and splits it
//! into a backbone of clauses that can run where they stand and a list of
//! pending clauses. The scheduler then walks the backbone and, after each of
//! its clauses, admits the pending clauses whose variables have become bound.

use vstd::prelude::*;
use crate::program::{NormalFormAtom, Variable};

verus! {

/// What the classifier has made of a prefix of the body.
pub struct Partition {
    /// The head variables and those bound by the backbone.
    pub seen: Set<Variable>,
    /// The clauses that need no look-ahead, in body order.
    pub backbone: Seq<NormalFormAtom>,
    /// The deferred clauses, in body order.
    pub pending: Seq<NormalFormAtom>,
}

/// Whether the classifier puts `atom` on the backbone when `seen` is bound:
/// it binds something, and all that it reads is bound already.
pub open spec fn is_resolvable(atom: NormalFormAtom, seen: Set<Variable>) -> bool {
    !atom.is_consumer_only() && atom.consumes().subset_of(seen)
}

/// The classifier's step for one clause.
pub open spec fn classify_one(p: Partition, atom: NormalFormAtom) -> Partition {
    if is_resolvable(atom, p.seen) {
        Partition {
            seen: p.seen.union(atom.binds()),
            backbone: p.backbone.push(atom),
            pending: p.pending,
        }
    } else {
        Partition { seen: p.seen, backbone: p.backbone, pending: p.pending.push(atom) }
    }
}

/// The classifier's result for `body` when the variables of `head` are bound
/// at the start.
pub open spec fn classified(head: Set<Variable>, body: Seq<NormalFormAtom>) -> Partition
    decreases body.len(),
{
    if body.len() == 0 {
        Partition { seen: head, backbone: Seq::empty(), pending: Seq::empty() }
    } else {
        classify_one(classified(head, body.drop_last()), body.last())
    }
}

/// What one round of admission has made of a prefix of the pending list.
pub struct Round {
    /// The variables bound so far.
    pub seen: Set<Variable>,
    /// The clauses admitted in this round, in the order of the pending list.
    pub admitted: Seq<NormalFormAtom>,
    /// The clauses carried to the next round, in the order of the pending list.
    pub carried: Seq<NormalFormAtom>,
}

/// The step of a round for one pending clause: it is admitted if all that it
/// reads is bound, and then what it binds is bound for the clauses after it.
pub open spec fn admit_one(r: Round, atom: NormalFormAtom) -> Round {
    if atom.consumes().subset_of(r.seen) {
        Round {
            seen: r.seen.union(atom.binds()),
            admitted: r.admitted.push(atom),
            carried: r.carried,
        }
    } else {
        Round { seen: r.seen, admitted: r.admitted, carried: r.carried.push(atom) }
    }
}

/// One round of admission over `pending`, starting with `seen` bound.
pub open spec fn admitted(seen: Set<Variable>, pending: Seq<NormalFormAtom>) -> Round
    decreases pending.len(),
{
    if pending.len() == 0 {
        Round { seen, admitted: Seq::empty(), carried: Seq::empty() }
    } else {
        admit_one(admitted(seen, pending.drop_last()), pending.last())
    }
}

/// What the scheduler has made of a prefix of the backbone.
pub struct Schedule {
    /// The variables bound so far.
    pub seen: Set<Variable>,
    /// The clauses placed so far, in evaluation order.
    pub ordered: Seq<NormalFormAtom>,
    /// The clauses that still wait for their variables.
    pub pending: Seq<NormalFormAtom>,
}

/// The scheduler's step for one backbone clause: the clause is placed, and
/// after it every pending clause that one round admits.
pub open spec fn schedule_one(s: Schedule, atom: NormalFormAtom) -> Schedule {
    let round = admitted(s.seen.union(atom.binds()), s.pending);
    Schedule {
        seen: round.seen,
        ordered: s.ordered.push(atom) + round.admitted,
        pending: round.carried,
    }
}

/// The scheduler's result for a backbone and a pending list when the
/// variables of `head` are bound at the start.
pub open spec fn scheduled(
    head: Set<Variable>,
    backbone: Seq<NormalFormAtom>,
    pending: Seq<NormalFormAtom>,
) -> Schedule
    decreases backbone.len(),
{
    if backbone.len() == 0 {
        Schedule { seen: head, ordered: Seq::empty(), pending }
    } else {
        schedule_one(scheduled(head, backbone.drop_last(), pending), backbone.last())
    }
}

/// The whole pass: the body is classified, and the scheduler runs on the
/// classifier's two lists with the bound variables reset to the head.
pub open spec fn well_ordered(head: Seq<Variable>, body: Seq<NormalFormAtom>) -> Schedule {
    let p = classified(head.to_set(), body);
    scheduled(head.to_set(), p.backbone, p.pending)
}

/// Whether the pass rejects the rule: some clause is still pending when the
/// scheduler has walked the whole backbone.
pub open spec fn is_rejected(head: Seq<Variable>, body: Seq<NormalFormAtom>) -> bool {
    well_ordered(head, body).pending.len() > 0
}

/// The variables of `head` and those that the clauses of `body` bind.
pub open spec fn bound_by(head: Set<Variable>, body: Seq<NormalFormAtom>) -> Set<Variable> {
    Set::new(
        |v: Variable|
            head.contains(v) || exists|j: int|
                0 <= j < body.len() && (#[trigger] body[j]).binds().contains(v),
    )
}

/// Whether `body` can be evaluated front to back: every variable that a clause
/// consumes is in `head` or bound by a clause before it.
pub open spec fn is_safe_order(head: Set<Variable>, body: Seq<NormalFormAtom>) -> bool {
    forall|i: int|
        0 <= i < body.len() ==> (#[trigger] body[i]).consumes().subset_of(
            bound_by(head, body.take(i)),
        )
}

/// The variables that the head and the backbone of `body` bind: those that
/// are bound whatever becomes of the deferred clauses.
pub open spec fn generated(head: Set<Variable>, body: Seq<NormalFormAtom>) -> Set<Variable> {
    bound_by(head, classified(head, body).backbone)
}

/// Whether some deferred clause of `body` consumes a variable that neither
/// the head nor the backbone binds.
pub open spec fn has_uncovered_clause(head: Set<Variable>, body: Seq<NormalFormAtom>) -> bool {
    exists|j: int|
        0 <= j < classified(head, body).pending.len() && !(#[trigger] classified(
            head,
            body,
        ).pending[j]).consumes().subset_of(generated(head, body))
}

/// Whether some clause of `body` consumes a variable that neither the head
/// nor any clause of the body binds.
pub open spec fn has_unbound_clause(head: Set<Variable>, body: Seq<NormalFormAtom>) -> bool {
    exists|i: int|
        0 <= i < body.len() && !(#[trigger] body[i]).consumes().subset_of(bound_by(head, body))
}

/// Whether `part` stands in `whole` at the positions `at`, which increase
/// from one clause of `part` to the next.
pub open spec fn occurs_at(
    part: Seq<NormalFormAtom>,
    whole: Seq<NormalFormAtom>,
    at: Seq<int>,
) -> bool {
    &&& at.len() == part.len()
    &&& forall|k: int|
        0 <= k < at.len() ==> 0 <= #[trigger] at[k] < whole.len() && whole[at[k]] == part[k]
    &&& forall|k: int, l: int| 0 <= k < l < at.len() ==> #[trigger] at[k] < #[trigger] at[l]
}

/// Where the scheduler places the clauses of the backbone: each one right
/// after everything that was placed before its turn.
pub open spec fn backbone_places(
    head: Set<Variable>,
    backbone: Seq<NormalFormAtom>,
    pending: Seq<NormalFormAtom>,
) -> Seq<int>
    decreases backbone.len(),
{
    if backbone.len() == 0 {
        Seq::empty()
    } else {
        backbone_places(head, backbone.drop_last(), pending).push(
            scheduled(head, backbone.drop_last(), pending).ordered.len() as int,
        )
    }
}

} // verus!
