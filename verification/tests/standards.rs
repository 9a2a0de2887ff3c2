use framer::element::ElementId;
use framer::error::ModelError;
use framer::resolve::{resolve_standards, ResolutionAction};
use framer::standards::{
    Applicability, CheckScope, CheckSeverity, CompareOp, ComplianceCheck, Fact, FactOperand, FramingDefaults, Predicate,
    RuleOverlay, StandardsPack, StudRow, StudTable,
};
use framer::system::BoardProfile;
use framer::units::Length;

fn starter_pack() -> StandardsPack {
    StandardsPack::irc_2021_starter()
}

fn test_check(rule: &str, requirement: Predicate) -> ComplianceCheck {
    ComplianceCheck {
        rule: rule.to_owned(),
        citation: "Test citation".to_owned(),
        title: "Test check".to_owned(),
        severity: CheckSeverity::Required,
        applies: Applicability::Always,
        scope: CheckScope::Walls { exterior_only: None, tags: Vec::new() },
        requirement,
    }
}

fn wall_height_check(rule: &str) -> ComplianceCheck {
    test_check(
        rule,
        Predicate::Compare { fact: Fact::WallHeight, op: CompareOp::Le, value: FactOperand::Fact(Fact::WallStudMaxHeight) },
    )
}

#[test]
fn validation_rejects_invalid_rule_id() {
    let mut pack = starter_pack();
    pack.tables.studs[0].rule = "IRC 2021".to_owned();

    assert!(matches!(pack.validate(), Err(ModelError::StandardsInvalidRuleId { .. })));
}

#[test]
fn validation_rejects_duplicate_rule_ids_across_tables_and_checks() {
    let mut pack = starter_pack();
    let rule = pack.tables.studs[0].rule.clone();
    pack.checks.push(wall_height_check(&rule));

    assert!(matches!(pack.validate(), Err(ModelError::StandardsDuplicateRuleId { .. })));
}

#[test]
fn validation_rejects_waive_without_reason() {
    let mut pack = starter_pack();
    pack.overlays.push(RuleOverlay::Waive { target: "irc2021.r602.3-5.studs".to_owned(), reason: " ".to_owned() });

    assert!(matches!(pack.validate(), Err(ModelError::StandardsOverlayMissingReason { .. })));
}

#[test]
fn validation_rejects_predicate_type_mismatch() {
    let mut pack = starter_pack();
    pack.checks.push(test_check(
        "test.bad-type",
        Predicate::Compare { fact: Fact::WallHeight, op: CompareOp::Le, value: FactOperand::IntLiteral(1) },
    ));

    assert!(matches!(pack.validate(), Err(ModelError::StandardsPredicateTypeMismatch { .. })));
}

#[test]
fn validation_rejects_flag_predicate_with_ordering_operator() {
    let mut pack = starter_pack();
    pack.checks.push(test_check(
        "test.bad-flag-op",
        Predicate::Compare { fact: Fact::WallIsExterior, op: CompareOp::Gt, value: FactOperand::FlagLiteral(false) },
    ));

    assert!(matches!(pack.validate(), Err(ModelError::StandardsPredicateInvalidOperator { .. })));
}

#[test]
fn validation_rejects_fact_scope_mismatch() {
    let mut pack = starter_pack();
    pack.checks.push(test_check(
        "test.bad-scope",
        Predicate::Compare { fact: Fact::RoomAreaSquareInches, op: CompareOp::Gt, value: FactOperand::IntLiteral(1) },
    ));

    assert!(matches!(pack.validate(), Err(ModelError::StandardsPredicateScopeMismatch { .. })));
}

#[test]
fn validation_rejects_unordered_rows() {
    let mut pack = starter_pack();
    pack.tables.studs[0].rows.swap(0, 1);

    assert!(matches!(pack.validate(), Err(ModelError::StandardsTableRowsNotStrictlyOrdered { .. })));
}

#[test]
fn validation_rejects_duplicate_fastening_keys() {
    let mut pack = starter_pack();
    let duplicate = pack.tables.fastening[0].rows[0].clone();
    pack.tables.fastening[0].rows.insert(1, duplicate);

    assert!(matches!(pack.validate(), Err(ModelError::StandardsTableRowsNotStrictlyOrdered { .. })));
}

#[test]
fn starter_pack_validates() {
    let pack = starter_pack();
    assert!(pack.validate().is_ok());
    assert_eq!(pack.id, ElementId::new("std-irc-2021".to_owned()));
}

fn table_pack(id: &str, rule: &str, header_depth: Length) -> StandardsPack {
    let mut pack = starter_pack();
    pack.id = ElementId::new(id.to_owned());
    pack.tables.defaults.default_header_depth = header_depth;
    pack.tables.studs = vec![StudTable {
        rule: rule.to_owned(),
        citation: format!("{rule} citation"),
        rows: vec![StudRow {
            profile: BoardProfile::TwoByFour,
            spacing: Length::from_whole_inches(16),
            max_height_bearing: Length::from_whole_inches(108),
            max_height_nonbearing: Length::from_whole_inches(120),
        }],
    }];
    pack.tables.headers.clear();
    pack.tables.fastening.clear();
    pack
}

#[test]
fn resolution_shadows_waives_reseverities_and_warns_deterministically() {
    let mut base = table_pack("base-pack", "irc2021.r602.3-5.studs", Length::from_whole_inches(9));
    base.checks.push(wall_height_check("check.wall-height"));
    let mut overlay = table_pack("overlay-pack", "irc2021.r602.3-5.studs", Length::from_whole_inches(11));
    overlay.overlays.push(RuleOverlay::Severity {
        target: "check.wall-height".to_owned(),
        severity: CheckSeverity::Advisory,
    });
    overlay.overlays.push(RuleOverlay::Waive {
        target: "irc2021.r602.3-5.studs".to_owned(),
        reason: "local engineered design".to_owned(),
    });
    overlay.overlays.push(RuleOverlay::Waive {
        target: "missing.rule".to_owned(),
        reason: "legacy overlay".to_owned(),
    });

    let resolved = resolve_standards(&vec![&base, &overlay]);
    let second = resolve_standards(&vec![&base, &overlay]);

    assert_eq!(resolved, second);
    assert_eq!(resolved.defaults.default_header_depth, Length::from_whole_inches(11));
    assert!(resolved.studs.is_empty(), "waived table excluded");
    assert_eq!(resolved.checks.len(), 1);
    assert_eq!(resolved.checks[0].1.severity, CheckSeverity::Advisory);
    assert_eq!(resolved.warnings.len(), 1);
    assert_eq!(resolved.warnings[0].0, "standards.overlay.unmatched");

    let stud_rule = resolved.rules.iter().find(|rule| rule.rule == "irc2021.r602.3-5.studs").unwrap();
    assert_eq!(stud_rule.pack, ElementId::new("overlay-pack".to_owned()));
    assert_eq!(stud_rule.waived.as_deref(), Some("local engineered design"));
    assert_eq!(
        stud_rule.chain,
        vec![
            (ElementId::new("base-pack".to_owned()), ResolutionAction::Introduced),
            (ElementId::new("overlay-pack".to_owned()), ResolutionAction::Shadowed),
            (ElementId::new("overlay-pack".to_owned()), ResolutionAction::Waived),
        ]
    );

    let check_rule = resolved.rules.iter().find(|rule| rule.rule == "check.wall-height").unwrap();
    assert_eq!(check_rule.severity, Some(CheckSeverity::Advisory));
    assert_eq!(
        check_rule.chain,
        vec![
            (ElementId::new("base-pack".to_owned()), ResolutionAction::Introduced),
            (ElementId::new("overlay-pack".to_owned()), ResolutionAction::Reseverity),
        ]
    );
}

#[test]
fn resolution_of_empty_stack_uses_starter_defaults() {
    let resolved = resolve_standards(&Vec::new());
    assert_eq!(resolved.defaults, FramingDefaults::irc_2021_starter());
    assert!(resolved.rules.is_empty());
    assert!(resolved.warnings.is_empty());
}

#[test]
fn resolution_warning_names_pack_and_rule() {
    let mut pack = table_pack("overlay-pack", "irc2021.r602.3-5.studs", Length::from_whole_inches(11));
    pack.overlays.push(RuleOverlay::Severity { target: "missing.rule".to_owned(), severity: CheckSeverity::Advisory });
    let resolved = resolve_standards(&vec![&pack]);
    assert_eq!(resolved.warnings.len(), 1);
    assert_eq!(
        resolved.warnings[0].1,
        "standards pack ElementId(\"overlay-pack\") re-severities unmatched rule \"missing.rule\""
    );
}

#[test]
fn resolved_rules_come_in_rule_order_with_their_tables() {
    let pack = table_pack("solo", "zzz.studs", Length::from_whole_inches(9));
    let mut pack = pack;
    pack.checks.push(wall_height_check("aaa.check"));
    let resolved = resolve_standards(&vec![&pack]);
    let names: Vec<&str> = resolved.rules.iter().map(|rule| rule.rule.as_str()).collect();
    assert_eq!(names, vec!["aaa.check", "zzz.studs"]);
    assert_eq!(resolved.studs.len(), 1);
    assert_eq!(resolved.studs[0].0, ElementId::new("solo".to_owned()));
    assert_eq!(resolved.studs[0].1.citation, "zzz.studs citation");
    assert_eq!(resolved.checks[0].1.severity, CheckSeverity::Required);
}
