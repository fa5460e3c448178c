use grimoire::constraint::{self, Requirement};
use grimoire::grimoire::Grimoire;
use grimoire::resolve::{resolve, ResolveError, ResolvedPlan};
use grimoire::spell::{Cast, Channel, ChannelType, Provides, Spell};

fn shell_channel() -> Channel {
    Channel {
        kind: ChannelType::Shell,
        summary: String::new(),
        run: Some("true".to_string()),
        version_hint: None,
        requires_sudo: false,
        distros: vec![],
        repo: None,
        git_ref: None,
        path: None,
        compose_file: None,
        parameters: vec![],
    }
}

fn mk_spell(name: &str, requires: &[&str]) -> Spell {
    Spell {
        name: name.to_string(),
        summary: "test".to_string(),
        verify: "true".to_string(),
        cast: Cast { default: "shell".to_string(), channels: vec![("shell".to_string(), shell_channel())] },
        description: None,
        homepage: None,
        maintainer: None,
        category: None,
        tags: vec![],
        distros: vec![],
        version_check: None,
        requires: requires.iter().map(|s| s.to_string()).collect(),
        system_requires: vec![],
        provides: Provides::default(),
        before: None,
        after: None,
        desktop: None,
    }
}

fn mk_grimoire(spells: Vec<Spell>) -> Grimoire {
    Grimoire::from_spells(spells)
}

fn req(s: &str) -> Requirement {
    constraint::parse(s).unwrap()
}

fn names<'a>(p: &'a ResolvedPlan<'_>) -> Vec<&'a str> {
    p.steps.iter().map(|s| s.spell.name.as_str()).collect()
}

#[test]
fn no_requires_single_step() {
    let g = mk_grimoire(vec![mk_spell("a", &[])]);
    let plan = resolve(&g, &[req("a")]).unwrap();
    assert_eq!(names(&plan), vec!["a"]);
    assert!(plan.steps[0].is_seed);
}

#[test]
fn single_requires_expansion() {
    let g = mk_grimoire(vec![mk_spell("a", &["b"]), mk_spell("b", &[])]);
    let plan = resolve(&g, &[req("a")]).unwrap();
    assert_eq!(names(&plan), vec!["b", "a"]);
    assert!(!plan.steps[0].is_seed); // b was pulled in
    assert!(plan.steps[1].is_seed); // a was the seed
}

#[test]
fn two_level_requires() {
    let g = mk_grimoire(vec![mk_spell("a", &["b"]), mk_spell("b", &["c"]), mk_spell("c", &[])]);
    let plan = resolve(&g, &[req("a")]).unwrap();
    assert_eq!(names(&plan), vec!["c", "b", "a"]);
}

#[test]
fn diamond_dependency() {
    // a → b, a → c, b → d, c → d
    let g = mk_grimoire(vec![
        mk_spell("a", &["b", "c"]),
        mk_spell("b", &["d"]),
        mk_spell("c", &["d"]),
        mk_spell("d", &[]),
    ]);
    let plan = resolve(&g, &[req("a")]).unwrap();
    let n = names(&plan);
    // d must come first; a must come last; b and c order between is implementation-detail.
    assert_eq!(n[0], "d");
    assert_eq!(n[3], "a");
    assert!(n[1..3].contains(&"b") && n[1..3].contains(&"c"));
}

#[test]
fn cycle_detected() {
    let g = mk_grimoire(vec![mk_spell("a", &["b"]), mk_spell("b", &["a"])]);
    let err = resolve(&g, &[req("a")]).unwrap_err();
    assert!(err.message().contains("cycle"));
}

#[test]
fn missing_spell_errors() {
    let g = mk_grimoire(vec![mk_spell("a", &["b"])]);
    let err = resolve(&g, &[req("a")]).unwrap_err();
    assert!(err.message().contains("not in the grimoire"));
}

#[test]
fn constraint_merge_from_dependents() {
    // Two seeds both require b, but with different constraints.
    let g = mk_grimoire(vec![
        mk_spell("a", &["b >= 1.0"]),
        mk_spell("c", &["b < 2.0"]),
        mk_spell("b", &[]),
    ]);
    let plan = resolve(&g, &[req("a"), req("c")]).unwrap();
    let b_step = plan.steps.iter().find(|s| s.spell.name == "b").expect("b in plan");
    // Both >= 1.0 and < 2.0 must be present (AND).
    assert_eq!(b_step.requirement.constraints.len(), 2);
    assert!(b_step.requirement.satisfied_by("1.5"));
    assert!(!b_step.requirement.satisfied_by("0.9"));
    assert!(!b_step.requirement.satisfied_by("2.1"));
}

#[test]
fn seed_constraint_propagates() {
    let g = mk_grimoire(vec![mk_spell("a", &[])]);
    let plan = resolve(&g, &[req("a >= 1.0")]).unwrap();
    assert_eq!(plan.steps[0].requirement.constraints.len(), 1);
}

#[test]
fn deterministic_order_for_independent_seeds() {
    let g = mk_grimoire(vec![mk_spell("alpha", &[]), mk_spell("beta", &[]), mk_spell("gamma", &[])]);
    let plan1 = resolve(&g, &[req("gamma"), req("alpha"), req("beta")]).unwrap();
    let plan2 = resolve(&g, &[req("alpha"), req("beta"), req("gamma")]).unwrap();
    assert_eq!(names(&plan1), names(&plan2));
    assert_eq!(names(&plan1), vec!["alpha", "beta", "gamma"]);
}

#[test]
fn resolve_error_variants_and_messages() {
    let g = mk_grimoire(vec![mk_spell("a", &["b"])]);
    assert_eq!(
        resolve(&g, &[req("a")]).unwrap_err(),
        ResolveError::NotInGrimoire { name: "b".to_string() }
    );
    assert_eq!(
        ResolveError::NotInGrimoire { name: "b".to_string() }.message(),
        "spell \"b\" is referenced but not in the grimoire"
    );
    let g = mk_grimoire(vec![mk_spell("a", &["BAD"])]);
    match resolve(&g, &[req("a")]).unwrap_err() {
        ResolveError::InvalidRequires { spell, entry, .. } => {
            assert_eq!(spell, "a");
            assert_eq!(entry, "BAD");
        }
        other => panic!("unexpected {other:?}"),
    }
    let g = mk_grimoire(vec![mk_spell("x", &["y"]), mk_spell("y", &["x"]), mk_spell("z", &["x"]), mk_spell("w", &[])]);
    let err = resolve(&g, &[req("z"), req("w")]).unwrap_err();
    assert_eq!(err, ResolveError::Cycle { involving: vec!["x".into(), "y".into(), "z".into()] });
    assert_eq!(err.message(), "dependency cycle detected involving: x, y, z");
}

#[test]
fn repeated_seed_merges_and_marks_seed() {
    let g = mk_grimoire(vec![mk_spell("a", &["b"]), mk_spell("b", &[])]);
    let plan = resolve(&g, &[req("a >= 1"), req("b"), req("a < 3")]).unwrap();
    assert_eq!(names(&plan), vec!["b", "a"]);
    assert!(plan.steps[0].is_seed);
    assert_eq!(plan.steps[1].requirement.constraints.len(), 2);
}

#[test]
fn plan_is_the_least_closed_set() {
    // "unused" is in the grimoire but nothing requires it; "c" is reached
    // through two paths and appears once.
    let g = mk_grimoire(vec![
        mk_spell("a", &["b", "c"]),
        mk_spell("b", &["c"]),
        mk_spell("c", &[]),
        mk_spell("unused", &["a"]),
    ]);
    let plan = resolve(&g, &[req("a")]).unwrap();
    let mut got = names(&plan);
    got.sort();
    assert_eq!(got, vec!["a", "b", "c"]);
}

#[test]
fn merge_keeps_every_comparator_with_repeats() {
    let g = mk_grimoire(vec![
        mk_spell("a", &["lib >= 1", "lib < 3"]),
        mk_spell("b", &["lib >= 1"]),
        mk_spell("lib", &[]),
    ]);
    let plan = resolve(&g, &[req("a"), req("b"), req("lib != 2")]).unwrap();
    let lib = plan.steps.iter().find(|s| s.spell.name == "lib").unwrap();
    let mut got: Vec<String> =
        lib.requirement.constraints.iter().map(|c| format!("{:?} {}", c.op, c.version)).collect();
    got.sort();
    assert_eq!(got, vec!["Ge 1", "Ge 1", "Lt 3", "Ne 2"]);
}

#[test]
fn failure_without_a_closed_set() {
    let g = mk_grimoire(vec![mk_spell("a", &["b"]), mk_spell("c", &["Bad Entry"])]);
    assert!(matches!(resolve(&g, &[req("a")]), Err(ResolveError::NotInGrimoire { .. })));
    assert!(matches!(resolve(&g, &[req("c")]), Err(ResolveError::InvalidRequires { .. })));
    assert!(resolve(&g, &[req("x")]).is_err());
}
