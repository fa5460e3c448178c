use grimoire::constraint::{parse, parse_defined, requirements_defined, ConstraintError, Op};

#[test]
fn bare_name() {
    let r = parse("rust").unwrap();
    assert_eq!(r.name, "rust");
    assert!(r.constraints.is_empty());
    assert!(r.satisfied_by("0.0.1")); // anything satisfies an empty constraint set
}

#[test]
fn single_min() {
    let r = parse("rust >= 1.95").unwrap();
    assert_eq!(r.name, "rust");
    assert_eq!(r.constraints.len(), 1);
    assert!(r.satisfied_by("1.95.0"));
    assert!(r.satisfied_by("1.96.0"));
    assert!(!r.satisfied_by("1.94.9"));
}

#[test]
fn range() {
    let r = parse("java >= 18, < 20").unwrap();
    assert_eq!(r.constraints.len(), 2);
    assert!(r.satisfied_by("18.0.1"));
    assert!(r.satisfied_by("19.0.0"));
    assert!(!r.satisfied_by("20.0.0"));
    assert!(!r.satisfied_by("17.9.9"));
}

#[test]
fn equality_dotted_date() {
    let r = parse("android-studio == 2025.1.2.12").unwrap();
    assert!(r.satisfied_by("2025.1.2.12"));
    assert!(!r.satisfied_by("2025.1.2.13"));
}

#[test]
fn inequality() {
    let r = parse("foo != 2.0").unwrap();
    assert!(r.satisfied_by("1.9"));
    assert!(!r.satisfied_by("2.0"));
    assert!(r.satisfied_by("2.0.1"));
}

#[test]
fn whitespace_tolerance() {
    let r = parse("  rust   >=1.95  ").unwrap();
    assert_eq!(r.name, "rust");
    assert!(r.satisfied_by("1.95"));
}

#[test]
fn constraint_rejects_bad_name() {
    assert!(parse("Rust-Dev >= 1.0").is_err());
    assert!(parse("1foo").is_err());
    assert!(parse("foo_bar").is_err());
}

#[test]
fn rejects_bad_op() {
    assert!(parse("foo ~ 1.0").is_err());
    assert!(parse("foo === 1.0").is_err());
}

#[test]
fn rejects_missing_version() {
    assert!(parse("foo >=").is_err());
    assert!(parse("foo >= , < 2").is_err());
}

#[test]
fn each_parse_error_variant() {
    assert_eq!(parse("   "), Err(ConstraintError::Empty));
    assert!(matches!(parse(">= 1"), Err(ConstraintError::MissingName { .. })));
    assert!(matches!(parse("Foo"), Err(ConstraintError::NameStart { .. })));
    assert!(matches!(parse("foo_bar"), Err(ConstraintError::NameChars { .. })));
    assert!(matches!(parse("foo >="), Err(ConstraintError::MissingVersion { .. })));
    assert!(matches!(parse("foo === 1.0"), Err(ConstraintError::UnrecognizedOperator { .. })));
    assert!(matches!(parse("foo ~ 1.0"), Err(ConstraintError::NoOperator { .. })));
}

#[test]
fn parsed_operators_and_versions() {
    let r = parse("x <= 1, > 0.5, == 0.7, < 2").unwrap();
    let ops: Vec<Op> = r.constraints.iter().map(|c| c.op).collect();
    assert_eq!(ops, vec![Op::Le, Op::Gt, Op::Eq, Op::Lt]);
    assert_eq!(r.constraints[1].version, "0.5");
}

#[test]
fn parse_defined_on_multibyte_operator() {
    assert!(parse_defined("rust >= 1.0"));
    assert!(parse_defined("rust"));
    assert!(!parse_defined("rust é1.0"));
    assert!(!parse_defined("rust >é"));
    // Parsing stops at the first bad comparator, so later ones are never read.
    assert!(parse_defined("rust ~ 1, >é"));
    let entries = vec!["a >= 1".to_string(), "b >é".to_string()];
    assert!(!requirements_defined(&entries));
    let entries = vec!["A".to_string(), "b >é".to_string()];
    assert!(requirements_defined(&entries));
}

#[test]
fn formatted_requirement_reads_back() {
    let parts = [(Op::Lt, "<", "2"), (Op::Le, "<=", "1.9"), (Op::Eq, "==", "1.5"), (Op::Ne, "!=", "1.4"), (Op::Ge, ">=", "1.0"), (Op::Gt, ">", "0.9")];
    for spaced in [true, false] {
        let gap = if spaced { " " } else { "" };
        let text = format!(
            "my-tool2 {}",
            parts.iter().map(|(_, o, v)| format!("{o}{gap}{v}")).collect::<Vec<_>>().join(", ")
        );
        let r = parse(&text).unwrap();
        assert_eq!(r.name, "my-tool2");
        assert_eq!(r.constraints.len(), parts.len());
        for (c, (op, _, v)) in r.constraints.iter().zip(parts.iter()) {
            assert_eq!(c.op, *op);
            assert_eq!(c.version, *v);
        }
    }
}
