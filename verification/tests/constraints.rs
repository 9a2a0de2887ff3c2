use framer::constraints::{ConstraintSystem, ConstraintVariable, LinearConstraint, LinearExpression, VariableValues};
use framer::units::Length;

fn variable(name: &str) -> ConstraintVariable {
    ConstraintVariable::new("object", name)
}

fn expression(terms: Vec<(ConstraintVariable, i64)>) -> LinearExpression {
    let mut expression = LinearExpression::new();
    for (variable, coefficient) in terms {
        expression.add_term(variable, coefficient);
    }
    expression
}

fn values(pairs: Vec<(ConstraintVariable, Length)>) -> VariableValues {
    VariableValues::from_pairs(pairs)
}

#[test]
fn dependent_constraint_overconstrains_existing_system() {
    let x = variable("x");
    let y = variable("y");
    let system = ConstraintSystem::from_constraints(
        vec![x.clone(), y.clone()],
        vec![
            LinearConstraint::new("x", LinearExpression::variable(x.clone(), 1), Length::from_whole_inches(4)),
            LinearConstraint::new("y", LinearExpression::variable(y.clone(), 1), Length::from_whole_inches(6)),
        ],
    );
    let mut expression = LinearExpression::new();
    expression.add_term(x, 1);
    expression.add_term(y, -1);

    assert!(system.would_overconstrain(&LinearConstraint::new(
        "x-minus-y",
        expression,
        Length::from_whole_inches(-2),
    )));
}

#[test]
fn scaled_dependent_constraint_overconstrains_existing_system() {
    let x = variable("x");
    let y = variable("y");
    let system = ConstraintSystem::from_constraints(
        vec![x.clone(), y.clone()],
        vec![LinearConstraint::new(
            "x-plus-y",
            expression(vec![(x.clone(), 1), (y.clone(), 1)]),
            Length::from_whole_inches(10),
        )],
    );

    assert!(system.would_overconstrain(&LinearConstraint::new(
        "two-x-plus-two-y",
        expression(vec![(x, 2), (y, 2)]),
        Length::from_whole_inches(20),
    )));
}

#[test]
fn duplicate_variable_constraint_overconstrains_existing_system() {
    let x = variable("x");
    let system = ConstraintSystem::from_constraints(
        vec![x.clone()],
        vec![LinearConstraint::new("x", LinearExpression::variable(x.clone(), 1), Length::from_whole_inches(4))],
    );

    assert!(system.would_overconstrain(&LinearConstraint::new(
        "x-again",
        LinearExpression::variable(x, 1),
        Length::from_whole_inches(4),
    )));
}

#[test]
fn constraint_mixing_existing_and_new_variables_is_independent() {
    let x = variable("x");
    let y = variable("y");
    let system = ConstraintSystem::from_constraints(
        vec![x.clone()],
        vec![LinearConstraint::new("x", LinearExpression::variable(x.clone(), 1), Length::from_whole_inches(4))],
    );

    assert!(!system.would_overconstrain(&LinearConstraint::new(
        "x-plus-y",
        expression(vec![(x, 1), (y, 1)]),
        Length::from_whole_inches(10),
    )));
}

#[test]
fn independent_constraint_can_introduce_a_new_variable() {
    let x = variable("x");
    let y = variable("y");
    let system = ConstraintSystem::from_constraints(
        vec![x.clone()],
        vec![LinearConstraint::new("x", LinearExpression::variable(x, 1), Length::from_whole_inches(4))],
    );

    assert!(!system.would_overconstrain(&LinearConstraint::new(
        "y",
        LinearExpression::variable(y, 1),
        Length::from_whole_inches(6),
    )));
}

#[test]
fn linear_constraint_can_evaluate_current_values() {
    let x = variable("x");
    let y = variable("y");
    let mut expression = LinearExpression::new();
    expression.add_term(x.clone(), 2);
    expression.add_term(y.clone(), -1);
    let constraint = LinearConstraint::new("twice-x-minus-y", expression, Length::zero());
    let values = values(vec![(x, Length::from_whole_inches(5)), (y, Length::from_whole_inches(10))]);

    assert_eq!(constraint.is_satisfied(&values), Some(true));
}

#[test]
fn linear_constraint_reports_unsatisfied_and_unresolved_values() {
    let x = variable("x");
    let y = variable("y");
    let constraint = LinearConstraint::new(
        "x-minus-y",
        expression(vec![(x.clone(), 1), (y.clone(), -1)]),
        Length::from_whole_inches(2),
    );

    assert_eq!(
        constraint.is_satisfied(&values(vec![
            (x.clone(), Length::from_whole_inches(5)),
            (y.clone(), Length::from_whole_inches(1)),
        ])),
        Some(false)
    );
    assert_eq!(constraint.is_satisfied(&values(vec![(x, Length::from_whole_inches(5))])), None);
}

#[test]
fn solver_preserves_free_defaults_while_solving_pivots() {
    let center = variable("center");
    let width = variable("width");
    let system = ConstraintSystem::from_constraints(
        vec![center.clone(), width.clone()],
        vec![
            LinearConstraint::new(
                "left",
                expression(vec![(center.clone(), 2), (width.clone(), -1)]),
                Length::from_whole_inches(120),
            ),
            LinearConstraint::new(
                "right",
                expression(vec![(center.clone(), 2), (width.clone(), 1)]),
                Length::from_whole_inches(240),
            ),
        ],
    );
    let solution = system
        .solve_with_defaults(&values(vec![
            (center.clone(), Length::from_whole_inches(80)),
            (width.clone(), Length::from_whole_inches(36)),
        ]))
        .unwrap();

    assert_eq!(solution.get(&center).unwrap(), Length::from_whole_inches(90));
    assert_eq!(solution.get(&width).unwrap(), Length::from_whole_inches(60));
}

#[test]
fn solver_keeps_unconstrained_variables_at_defaults() {
    let x = variable("x");
    let y = variable("y");
    let system = ConstraintSystem::from_constraints(
        vec![x.clone(), y.clone()],
        vec![LinearConstraint::new("x", LinearExpression::variable(x.clone(), 1), Length::from_whole_inches(12))],
    );
    let solution = system
        .solve_with_defaults(&values(vec![
            (x.clone(), Length::from_whole_inches(4)),
            (y.clone(), Length::from_whole_inches(9)),
        ]))
        .unwrap();

    assert_eq!(solution.get(&x).unwrap(), Length::from_whole_inches(12));
    assert_eq!(solution.get(&y).unwrap(), Length::from_whole_inches(9));
}

#[test]
fn solver_rejects_inconsistent_constraints() {
    let x = variable("x");
    let system = ConstraintSystem::from_constraints(
        vec![x.clone()],
        vec![
            LinearConstraint::new("x-four", LinearExpression::variable(x.clone(), 1), Length::from_whole_inches(4)),
            LinearConstraint::new("x-five", LinearExpression::variable(x.clone(), 1), Length::from_whole_inches(5)),
        ],
    );

    assert!(system.solve_with_defaults(&values(vec![(x, Length::zero())])).is_none());
}

#[test]
fn solver_requires_defaults_for_variables() {
    let x = variable("x");
    let y = variable("y");
    let system = ConstraintSystem::from_constraints(
        vec![x.clone(), y.clone()],
        vec![LinearConstraint::new("x", LinearExpression::variable(x.clone(), 1), Length::from_whole_inches(12))],
    );

    assert!(system.solve_with_defaults(&values(vec![(x, Length::zero())])).is_none());
}

#[test]
fn expression_combines_and_cancels_terms() {
    let x = variable("x");
    let y = variable("y");
    let mut first = expression(vec![(x.clone(), 2), (y.clone(), 1)]);
    let second = expression(vec![(x.clone(), 2), (y.clone(), 1)]);

    first.add_expression(&second, -1);

    assert_eq!(
        first.evaluate(&values(vec![(x, Length::from_whole_inches(5)), (y, Length::from_whole_inches(7))])),
        Some(Length::zero())
    );
    assert_eq!(first.variables().len(), 0);
}

#[test]
fn solver_rounds_half_ticks_away_from_zero() {
    let x = variable("x");
    let system = ConstraintSystem::from_constraints(
        vec![x.clone()],
        vec![LinearConstraint::new("two-x", LinearExpression::variable(x.clone(), 2), Length::from_ticks(3))],
    );
    let solution = system.solve_with_defaults(&values(vec![(x.clone(), Length::zero())])).unwrap();
    assert_eq!(solution.get(&x).unwrap(), Length::from_ticks(2));

    let negative = ConstraintSystem::from_constraints(
        vec![x.clone()],
        vec![LinearConstraint::new("two-x", LinearExpression::variable(x.clone(), 2), Length::from_ticks(-3))],
    );
    let solution = negative.solve_with_defaults(&values(vec![(x.clone(), Length::zero())])).unwrap();
    assert_eq!(solution.get(&x).unwrap(), Length::from_ticks(-2));
}

#[test]
fn overconstraint_decision_answers_exactly_on_small_systems() {
    let x = variable("x");
    let y = variable("y");
    let z = variable("z");
    let system = ConstraintSystem::from_constraints(
        vec![x.clone(), y.clone(), z.clone()],
        vec![
            LinearConstraint::new("a", expression(vec![(x.clone(), 1), (y.clone(), 2)]), Length::zero()),
            LinearConstraint::new("b", expression(vec![(y.clone(), 3), (z.clone(), -1)]), Length::zero()),
        ],
    );
    let combined = expression(vec![(x.clone(), 2), (y.clone(), 7), (z.clone(), -1)]);
    assert_eq!(
        system.overconstraint_decision(&LinearConstraint::new("c", combined, Length::zero())),
        Some(true)
    );
    let independent = expression(vec![(x.clone(), 1), (z.clone(), 1)]);
    assert_eq!(
        system.overconstraint_decision(&LinearConstraint::new("d", independent, Length::zero())),
        Some(false)
    );
}

#[test]
fn a_constraint_on_a_fresh_variable_never_overconstrains() {
    let x = variable("x");
    let z = variable("z");
    let system = ConstraintSystem::from_constraints(
        vec![x.clone(), z.clone()],
        vec![LinearConstraint::new("x", LinearExpression::variable(x.clone(), 1), Length::from_whole_inches(4))],
    );
    let candidate = LinearConstraint::new("x-plus-z", expression(vec![(x, 3), (z, 1)]), Length::from_whole_inches(9));
    assert_eq!(system.overconstraint_decision(&candidate), Some(false));
    assert!(!system.would_overconstrain(&candidate));
}

#[test]
fn a_system_without_constraints_keeps_every_default() {
    let x = variable("x");
    let y = variable("y");
    let system = ConstraintSystem::from_constraints(vec![x.clone(), y.clone()], vec![]);
    let solved = system
        .solve_with_defaults(&values(vec![(x.clone(), Length::from_whole_inches(7)), (y.clone(), Length::from_ticks(-3))]))
        .unwrap();
    assert_eq!(solved.get(&x), Some(Length::from_whole_inches(7)));
    assert_eq!(solved.get(&y), Some(Length::from_ticks(-3)));
    assert!(system.solve_with_defaults(&values(vec![(x, Length::from_whole_inches(7))])).is_none());
}

#[test]
fn independent_candidate_over_constrained_variables_is_accepted() {
    let x = variable("x");
    let y = variable("y");
    let system = ConstraintSystem::from_constraints(
        vec![x.clone(), y.clone()],
        vec![LinearConstraint::new("sum", expression(vec![(x.clone(), 1), (y.clone(), 1)]), Length::from_whole_inches(10))],
    );
    let candidate = LinearConstraint::new("difference", expression(vec![(x, 1), (y, -1)]), Length::from_whole_inches(2));
    assert!(!system.would_overconstrain(&candidate));
    assert_eq!(system.overconstraint_decision(&candidate), Some(false));
}

#[test]
fn expression_variables_come_out_in_increasing_order() {
    let e = expression(vec![(variable("z"), 1), (variable("a"), 2), (variable("m"), -1)]);
    let names: Vec<String> = e.variables().iter().map(|v| format!("{:?}", v)).collect();
    let mut sorted = names.clone();
    sorted.sort();
    assert_eq!(names, sorted);
    assert_eq!(names.len(), 3);
}
