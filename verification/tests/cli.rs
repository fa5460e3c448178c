use grimoire::cast::{completion, early_outcome, failure_event, version_suffix, CastOptions, Outcome};
use grimoire::cli::{
    cast_seeds, ls_line, ls_rows, ls_width, override_for, pad, plan_step, scry_line, scry_rows, stub,
    CastArgs, CastSummary, CliError, LsArgs, StepPlan,
};
use grimoire::grimoire::{Grimoire, Source, SpellEntry};
use grimoire::manifest::{Manifest, ManifestError, Override, Profile};
use grimoire::scry::{State, Status};
use grimoire::spell::{Cast, Channel, ChannelType, Provides, Spell};

fn mk_spell(name: &str, requires: &[&str], category: Option<&str>) -> Spell {
    Spell {
        name: name.to_string(),
        summary: format!("{name} summary"),
        verify: "true".to_string(),
        cast: Cast {
            default: "shell".to_string(),
            channels: vec![(
                "shell".to_string(),
                Channel {
                    kind: ChannelType::Shell,
                    summary: String::new(),
                    run: Some("true".to_string()),
                    version_hint: None,
                    requires_sudo: false,
                    distros: vec![],
                    repo: None,
                    git_ref: None,
                    path: None,
                    compose_file: None,
                    parameters: vec![],
                },
            )],
        },
        description: None,
        homepage: None,
        maintainer: None,
        category: category.map(|c| c.to_string()),
        tags: vec![],
        distros: vec![],
        version_check: None,
        requires: requires.iter().map(|s| s.to_string()).collect(),
        system_requires: vec![],
        provides: Provides::default(),
        before: None,
        after: None,
        desktop: None,
    }
}

fn sample_grimoire() -> Grimoire {
    let mut g = Grimoire::from_spells(vec![
        mk_spell("zed", &[], Some("editor")),
        mk_spell("app", &["lib"], Some("dev")),
        mk_spell("lib", &[], Some("dev")),
    ]);
    g.merge_personal(vec![mk_spell("mine", &[], None)]);
    g
}

fn cast_args(spell: Option<&str>, via: Option<&str>, profile: Option<&str>) -> CastArgs {
    CastArgs {
        spell: spell.map(|s| s.to_string()),
        via: via.map(|s| s.to_string()),
        dry_run: false,
        recast: false,
        profile: profile.map(|s| s.to_string()),
    }
}

#[test]
fn ls_filters_and_formats() {
    let g = sample_grimoire();
    let all = ls_rows(&g, &LsArgs { personal: false, embedded: false, category: None });
    let names: Vec<&str> = all.iter().map(|r| r.name.as_str()).collect();
    assert_eq!(names, vec!["app", "lib", "mine", "zed"]);
    let personal = ls_rows(&g, &LsArgs { personal: true, embedded: false, category: None });
    assert_eq!(personal.len(), 1);
    assert_eq!(personal[0].source, "personal");
    let dev = ls_rows(&g, &LsArgs { personal: false, embedded: true, category: Some("dev".into()) });
    assert_eq!(dev.iter().map(|r| r.name.as_str()).collect::<Vec<_>>(), vec!["app", "lib"]);
    let w = ls_width(&all);
    assert_eq!(w, 4);
    assert_eq!(ls_line(&all[0], w), "  app   [embedded]  app summary");
    assert_eq!(pad("abcdef", 3), "abcdef");
}

#[test]
fn scry_rows_explicit_manifest_and_all() {
    let g = sample_grimoire();
    let rows = scry_rows(&g, Some("app"), None, None).unwrap();
    let names: Vec<&str> = rows.iter().map(|r| r.name.as_str()).collect();
    assert_eq!(names, vec!["lib", "app"]);
    assert!(!rows[0].is_seed && rows[1].is_seed);
    assert!(matches!(scry_rows(&g, Some("nope"), None, None), Err(CliError::SpellNotFound { .. })));
    let m = Manifest {
        spells: vec![],
        overrides: vec![],
        profiles: vec![("p".to_string(), Profile { spells: vec!["zed".to_string()] })],
    };
    let rows = scry_rows(&g, None, Some(&m), Some("p")).unwrap();
    assert_eq!(rows.len(), 1);
    assert_eq!(rows[0].name, "zed");
    let top = Manifest { spells: vec!["app >= 1".to_string()], overrides: vec![], profiles: vec![] };
    let rows = scry_rows(&g, None, Some(&top), None).unwrap();
    let names: Vec<&str> = rows.iter().map(|r| r.name.as_str()).collect();
    assert_eq!(names, vec!["lib", "app"]);
    assert!(!rows[0].is_seed && rows[1].is_seed);
    assert_eq!(rows[1].requirement.as_ref().unwrap().constraints.len(), 1);
    assert!(matches!(
        scry_rows(&g, None, Some(&top), Some("ghost")),
        Err(CliError::Manifest(ManifestError::NoProfile { .. }))
    ));
    let bad = Manifest { spells: vec!["Nope".to_string()], overrides: vec![], profiles: vec![] };
    assert!(matches!(
        scry_rows(&g, None, Some(&bad), None),
        Err(CliError::Manifest(ManifestError::InvalidSpell { .. }))
    ));
    let missing = Manifest { spells: vec!["absent".to_string()], overrides: vec![], profiles: vec![] };
    assert!(matches!(scry_rows(&g, None, Some(&missing), None), Err(CliError::Resolve(_))));
    let all = scry_rows(&g, None, None, None).unwrap();
    assert_eq!(all.len(), 4);
    assert!(all.iter().all(|r| r.is_seed && r.requirement.is_none()));
}

#[test]
fn scry_line_text() {
    let st = State { status: Status::Drifted, version: None, last_cast_channel: Some("rustup".into()) };
    assert_eq!(scry_line(&st, "rust", 6, false), "  ⚠ rust    drifted (dependency) (last cast via rustup)");
    let st = State { status: Status::Cast, version: Some("1.2".into()), last_cast_channel: None };
    assert_eq!(scry_line(&st, "bun", 3, true), "  ✓ bun  cast (version: 1.2)");
}

#[test]
fn step_plans() {
    assert_eq!(plan_step(Status::Cast, true, true), StepPlan::Cast { recast: true });
    assert_eq!(plan_step(Status::Cast, false, true), StepPlan::AlreadyCast);
    assert_eq!(plan_step(Status::Missing, false, false), StepPlan::Cast { recast: false });
    assert_eq!(plan_step(Status::Outdated, true, false), StepPlan::Cast { recast: true });
    assert_eq!(plan_step(Status::Drifted, true, true), StepPlan::Cast { recast: true });
    assert_eq!(plan_step(Status::Invalid, true, true), StepPlan::Cast { recast: true });
    assert_eq!(plan_step(Status::Drifted, false, true), StepPlan::SkipDrifted);
    assert_eq!(plan_step(Status::Drifted, true, false), StepPlan::SkipDrifted);
    assert_eq!(plan_step(Status::Invalid, true, false), StepPlan::SkipInvalid);
    assert_eq!(plan_step(Status::Unsupported, true, true), StepPlan::SkipUnsupported);
}

#[test]
fn seeds_from_spell_or_manifest() {
    let (seeds, ov) = cast_seeds(&cast_args(Some("rust"), Some("rustup"), None), None).unwrap();
    assert_eq!(seeds.len(), 1);
    assert_eq!(seeds[0].name, "rust");
    assert!(seeds[0].constraints.is_empty());
    assert_eq!(ov, vec![("rust".to_string(), "rustup".to_string())]);
    assert!(matches!(cast_seeds(&cast_args(None, Some("x"), None), None), Err(CliError::ViaNeedsSpell)));
    assert!(matches!(cast_seeds(&cast_args(None, None, None), None), Err(CliError::NoManifest)));
    let m = Manifest {
        spells: vec!["rust >= 1.95".to_string(), "bun".to_string()],
        overrides: vec![
            ("bun".to_string(), Override { channel: None }),
            ("rust".to_string(), Override { channel: Some("rustup".to_string()) }),
        ],
        profiles: vec![],
    };
    let (seeds, ov) = cast_seeds(&cast_args(None, None, None), Some(&m)).unwrap();
    assert_eq!(seeds.len(), 2);
    assert_eq!(ov, vec![("rust".to_string(), "rustup".to_string())]);
    assert_eq!(override_for(&ov, "rust"), Some("rustup"));
    assert_eq!(override_for(&ov, "bun"), None);
}

#[test]
fn summary_line_and_verdict() {
    let mut s = CastSummary::new();
    assert_eq!(s.line(), "(no spells)");
    s.record(Outcome::Cast);
    s.record(Outcome::Cast);
    s.record(Outcome::AlreadyCast);
    s.record(Outcome::VerifyStillFails);
    s.skipped_drifted = 1;
    assert_eq!(s.line(), "2 cast, 1 already cast, 1 drifted (skipped), 1 failed");
    assert_eq!(s.verdict(), Err(CliError::SpellsFailed { count: 1 }));
    s.verify_still_fails = 0;
    assert_eq!(s.verdict(), Ok(()));
    s.dry_run = 12;
    assert!(s.line().contains("12 planned"));
}

#[test]
fn cast_decisions_and_records() {
    let opts = CastOptions { via: None, recast: false, dry_run: true };
    assert_eq!(early_outcome(true, &opts), Some(Outcome::AlreadyCast));
    assert_eq!(early_outcome(false, &opts), Some(Outcome::DryRun));
    let opts = CastOptions { via: Some("x"), recast: true, dry_run: false };
    assert_eq!(early_outcome(true, &opts), None);
    let e = failure_event("rust", "rustup", -1, Some("1.0".into()));
    assert_eq!(e.error.as_deref(), Some("channel exited with code -1"));
    assert_eq!(e.version_before.as_deref(), Some("1.0"));
    let (e, o) = completion("rust", "rustup", 0, None, Some("1.1".into()), true);
    assert_eq!(o, Outcome::Cast);
    assert!(e.error.is_none());
    let (e, o) = completion("rust", "rustup", 0, None, None, false);
    assert_eq!(o, Outcome::VerifyStillFails);
    assert_eq!(e.error.as_deref(), Some("verify still fails after cast"));
    assert_eq!(version_suffix(Some("2")), " (version: 2)");
    assert_eq!(version_suffix(None), "");
}

#[test]
fn stub_reports_command() {
    assert_eq!(stub("scribe"), Err(CliError::NotImplemented { command: "scribe".to_string() }));
}

#[test]
fn grimoire_personal_replaces_embedded() {
    let mut g = Grimoire::from_spells(vec![mk_spell("a", &[], None), mk_spell("b", &[], None)]);
    assert_eq!(g.len(), 2);
    g.merge_personal(vec![mk_spell("a", &[], Some("mine"))]);
    assert_eq!(g.len(), 2);
    let e: &SpellEntry = g.get("a").unwrap();
    assert_eq!(e.source, Source::Personal);
    assert_eq!(e.spell.category.as_deref(), Some("mine"));
    assert_eq!(g.get("b").unwrap().source, Source::Embedded);
    assert!(g.get("c").is_none());
    assert!(!g.is_empty());
    let names: Vec<&str> = g.iter().iter().map(|e| e.spell.name.as_str()).collect();
    assert_eq!(names, vec!["a", "b"]);
}

#[test]
fn embedded_files_must_match_names() {
    let ok = Grimoire::from_embedded(vec![("b".to_string(), mk_spell("b", &[], None)), ("a".to_string(), mk_spell("a", &[], None))]);
    assert_eq!(ok.unwrap().len(), 2);
    let bad = Grimoire::from_embedded(vec![("a".to_string(), mk_spell("a", &[], None)), ("x".to_string(), mk_spell("y", &[], None))]);
    match bad {
        Err(grimoire::grimoire::LoadError::NameMismatch { file_stem, name }) => {
            assert_eq!(file_stem, "x");
            assert_eq!(name, "y");
        }
        Ok(_) => panic!("mismatch accepted"),
    }
}
