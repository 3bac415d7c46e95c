use rule_ordering::program::{
    Aggregation, Expr, NormalFormAtom, NormalFormAttrTripleAtom, NormalFormRule,
    NormalFormRuleApplyAtom, Unification, UnsafeRule, Validity, Variable,
};

fn var(id: u64) -> Variable {
    Variable { id }
}

fn read(v: Variable) -> Expr {
    Expr::Binding { var: v }
}

fn apply(op: &str, args: Vec<Expr>) -> Expr {
    Expr::Apply { op: op.to_string(), args }
}

fn plus_one(v: Variable) -> Expr {
    apply("add", vec![read(v), Expr::Const { val: 1 }])
}

fn unify(binding: Variable, expr: Expr) -> NormalFormAtom {
    NormalFormAtom::Unification(Unification { binding, expr })
}

fn pred(op: &str, vars: &[Variable]) -> NormalFormAtom {
    NormalFormAtom::Predicate(apply(op, vars.iter().map(|v| read(*v)).collect()))
}

fn triple(attr: &str, entity: Variable, value: Variable) -> NormalFormAttrTripleAtom {
    NormalFormAttrTripleAtom { attr: attr.to_string(), entity, value }
}

fn attr(name: &str, entity: Variable, value: Variable) -> NormalFormAtom {
    NormalFormAtom::AttrTriple(triple(name, entity, value))
}

fn not_attr(name: &str, entity: Variable, value: Variable) -> NormalFormAtom {
    NormalFormAtom::NegatedAttrTriple(triple(name, entity, value))
}

fn call(name: &str, args: &[Variable]) -> NormalFormAtom {
    NormalFormAtom::Rule(NormalFormRuleApplyAtom { name: name.to_string(), args: args.to_vec() })
}

fn not_call(name: &str, args: &[Variable]) -> NormalFormAtom {
    NormalFormAtom::NegatedRule(NormalFormRuleApplyAtom {
        name: name.to_string(),
        args: args.to_vec(),
    })
}

fn rule(head: &[Variable], body: Vec<NormalFormAtom>) -> NormalFormRule {
    NormalFormRule { head: head.to_vec(), aggr: vec![None; head.len()], body, vld: None }
}

fn ordered(head: &[Variable], body: Vec<NormalFormAtom>) -> Vec<NormalFormAtom> {
    match rule(head, body).convert_to_well_ordered_rule() {
        Ok(r) => r.body,
        Err(e) => panic!("rejected: {:?}", e),
    }
}

fn rejected(head: &[Variable], body: Vec<NormalFormAtom>) -> Vec<NormalFormAtom> {
    match rule(head, body).convert_to_well_ordered_rule() {
        Ok(r) => panic!("accepted: {:?}", r),
        Err(e) => e.atoms,
    }
}

#[test]
fn predicate_waits_for_the_unification_that_binds_its_variable() {
    let (x, y) = (var(1), var(2));
    let out = ordered(&[x], vec![pred("lt", &[x, y]), unify(y, plus_one(x))]);
    assert_eq!(out, vec![unify(y, plus_one(x)), pred("lt", &[x, y])]);
}

#[test]
fn predicate_on_a_variable_that_nothing_binds_is_rejected() {
    let z = var(7);
    let left = rejected(&[], vec![pred("is_odd", &[z])]);
    assert_eq!(left, vec![pred("is_odd", &[z])]);
}

#[test]
fn negated_triple_follows_the_triple_that_binds_its_variables() {
    let (e, v) = (var(1), var(2));
    let out = ordered(&[], vec![attr("name", e, v), not_attr("name", e, v)]);
    assert_eq!(out, vec![attr("name", e, v), not_attr("name", e, v)]);
}

#[test]
fn chained_unifications_keep_their_order() {
    let (a, b, c) = (var(1), var(2), var(3));
    let out = ordered(&[a], vec![unify(b, read(a)), unify(c, read(b))]);
    assert_eq!(out, vec![unify(b, read(a)), unify(c, read(b))]);
}

#[test]
fn negated_call_is_placed_right_after_the_call() {
    let (p, q, r) = (var(1), var(2), var(3));
    let out = ordered(
        &[],
        vec![
            not_call("edge", &[p, q]),
            call("edge", &[p, q]),
            attr("age", p, r),
        ],
    );
    assert_eq!(
        out,
        vec![call("edge", &[p, q]), not_call("edge", &[p, q]), attr("age", p, r)]
    );
}

#[test]
fn negated_call_after_the_call_stays_in_place() {
    let (p, q) = (var(1), var(2));
    let out = ordered(&[], vec![call("edge", &[p, q]), not_call("edge", &[p, q])]);
    assert_eq!(out, vec![call("edge", &[p, q]), not_call("edge", &[p, q])]);
}

#[test]
fn empty_body_is_accepted() {
    let x = var(1);
    let out = rule(&[x], vec![]).convert_to_well_ordered_rule();
    assert_eq!(out, Ok(rule(&[x], vec![])));
}

#[test]
fn empty_rule_is_accepted() {
    assert_eq!(ordered(&[], vec![]), vec![]);
}

#[test]
fn head_aggregation_and_validity_pass_through() {
    let (x, y) = (var(1), var(2));
    let input = NormalFormRule {
        head: vec![y, x],
        aggr: vec![Some(Aggregation { name: "count".to_string() }), None],
        body: vec![not_attr("name", x, y), attr("name", x, y)],
        vld: Some(Validity { timestamp: 1_700_000_000 }),
    };
    let expected = NormalFormRule {
        head: vec![y, x],
        aggr: vec![Some(Aggregation { name: "count".to_string() }), None],
        body: vec![attr("name", x, y), not_attr("name", x, y)],
        vld: Some(Validity { timestamp: 1_700_000_000 }),
    };
    assert_eq!(input.convert_to_well_ordered_rule(), Ok(expected));
}

#[test]
fn constant_unification_is_always_resolvable() {
    let x = var(1);
    let out = ordered(&[], vec![pred("is_odd", &[x]), unify(x, Expr::Const { val: 5 })]);
    assert_eq!(out, vec![unify(x, Expr::Const { val: 5 }), pred("is_odd", &[x])]);
}

#[test]
fn unification_is_deferred_until_a_later_clause_binds_its_input() {
    let (y, z, w) = (var(1), var(2), var(3));
    let out = ordered(&[], vec![unify(y, plus_one(z)), attr("age", z, w)]);
    assert_eq!(out, vec![attr("age", z, w), unify(y, plus_one(z))]);
}

#[test]
fn deferred_unification_binds_for_the_clauses_after_it_in_the_round() {
    let (y, z, w) = (var(1), var(2), var(3));
    let out = ordered(
        &[],
        vec![unify(y, plus_one(z)), pred("is_odd", &[y]), attr("age", z, w)],
    );
    assert_eq!(
        out,
        vec![attr("age", z, w), unify(y, plus_one(z)), pred("is_odd", &[y])]
    );
}

#[test]
fn clause_before_the_deferred_unification_needs_one_more_round() {
    let (y, z, w, a, b) = (var(1), var(2), var(3), var(4), var(5));
    let out = ordered(
        &[],
        vec![
            pred("is_odd", &[y]),
            unify(y, plus_one(z)),
            attr("age", z, w),
            attr("name", a, b),
        ],
    );
    assert_eq!(
        out,
        vec![
            attr("age", z, w),
            unify(y, plus_one(z)),
            attr("name", a, b),
            pred("is_odd", &[y]),
        ]
    );
}

#[test]
fn clause_before_the_deferred_unification_is_left_when_no_round_follows() {
    let (y, z, w) = (var(1), var(2), var(3));
    let left = rejected(
        &[],
        vec![pred("is_odd", &[y]), unify(y, plus_one(z)), attr("age", z, w)],
    );
    assert_eq!(left, vec![pred("is_odd", &[y])]);
}

#[test]
fn rule_without_backbone_clause_runs_no_round() {
    let x = var(1);
    let left = rejected(&[x], vec![pred("is_odd", &[x])]);
    assert_eq!(left, vec![pred("is_odd", &[x])]);
}

#[test]
fn unification_that_reads_its_own_target_is_rejected() {
    let (x, e, v) = (var(1), var(2), var(3));
    let left = rejected(&[], vec![attr("name", e, v), unify(x, plus_one(x))]);
    assert_eq!(left, vec![unify(x, plus_one(x))]);
}

#[test]
fn all_unplaced_clauses_are_reported_in_body_order() {
    let (a, b, c, e, v) = (var(1), var(2), var(3), var(4), var(5));
    let result = rule(
        &[],
        vec![
            pred("is_odd", &[a]),
            attr("name", e, v),
            not_call("edge", &[e, b]),
            not_attr("name", e, v),
            unify(c, plus_one(b)),
        ],
    )
    .convert_to_well_ordered_rule();
    assert_eq!(
        result,
        Err(UnsafeRule {
            atoms: vec![
                pred("is_odd", &[a]),
                not_call("edge", &[e, b]),
                unify(c, plus_one(b)),
            ]
        })
    );
}

#[test]
fn clauses_admitted_in_one_round_keep_their_order() {
    let (e, v, w) = (var(1), var(2), var(3));
    let out = ordered(
        &[],
        vec![
            pred("second", &[w]),
            not_attr("name", e, v),
            pred("first", &[v]),
            attr("name", e, v),
            pred("third", &[e, w]),
            attr("age", e, w),
        ],
    );
    assert_eq!(
        out,
        vec![
            attr("name", e, v),
            not_attr("name", e, v),
            pred("first", &[v]),
            attr("age", e, w),
            pred("second", &[w]),
            pred("third", &[e, w]),
        ]
    );
}

#[test]
fn clause_is_admitted_at_the_first_backbone_clause_that_covers_it() {
    let (a, b, c, d) = (var(1), var(2), var(3), var(4));
    let out = ordered(
        &[],
        vec![
            not_call("edge", &[a, c]),
            attr("name", a, b),
            attr("age", c, d),
            attr("size", a, d),
        ],
    );
    assert_eq!(
        out,
        vec![
            attr("name", a, b),
            attr("age", c, d),
            not_call("edge", &[a, c]),
            attr("size", a, d),
        ]
    );
}

#[test]
fn repeated_clauses_are_all_kept() {
    let (e, v) = (var(1), var(2));
    let out = ordered(
        &[],
        vec![
            not_attr("name", e, v),
            attr("name", e, v),
            not_attr("name", e, v),
            attr("name", e, v),
        ],
    );
    assert_eq!(
        out,
        vec![
            attr("name", e, v),
            not_attr("name", e, v),
            not_attr("name", e, v),
            attr("name", e, v),
        ]
    );
}

#[test]
fn predicate_without_variables_still_waits_for_a_round() {
    let (e, v) = (var(1), var(2));
    let always = NormalFormAtom::Predicate(Expr::Const { val: 1 });
    let out = ordered(&[], vec![NormalFormAtom::Predicate(Expr::Const { val: 1 }), attr("name", e, v)]);
    assert_eq!(out, vec![attr("name", e, v), always]);
}

#[test]
fn nested_expression_is_read_in_full() {
    let (x, y, z, e) = (var(1), var(2), var(3), var(4));
    let deep = apply("mul", vec![plus_one(x), apply("neg", vec![apply("abs", vec![read(y)])])]);
    let same = apply("mul", vec![plus_one(x), apply("neg", vec![apply("abs", vec![read(y)])])]);
    let out = ordered(&[x], vec![unify(z, deep), attr("name", e, y)]);
    assert_eq!(out, vec![attr("name", e, y), unify(z, same)]);
}
