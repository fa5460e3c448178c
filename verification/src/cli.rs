//! The commands of the `grimoire` program: their arguments, what they list
//! and print, and what `cast` decides for each spell of a plan. Parsing the
//! command line, reading files and running snippets are done by the program
//! around the library.
use crate::cast::{version_note, version_suffix, Outcome};
use crate::constraint::{
    entry_views, requirement_views, requirements_in_bounds, requirements_parse, Requirement,
};
use crate::grimoire::{Grimoire, Source, SpellEntry};
use crate::manifest::{Manifest, ManifestError};
use crate::resolve::{
    grimoire_defined, lemma_defined_in_bounds, resolution, resolve, step_views, ResolveError, ResolveFault,
    Sv,
};
use crate::scry::{State, Status};
use crate::spell::Spell;
use crate::text::{decimal, join, join_strs, lex, push_quoted, quoted, str_views, string_views, usize_text, Order};
use vstd::prelude::*;

verus! {

pub struct LsArgs {
    /// Show only personal spells (in ~/.config/grimoire/spells/).
    pub personal: bool,
    /// Show only embedded (shareable) spells.
    pub embedded: bool,
    /// Filter by category.
    pub category: Option<String>,
}

pub struct ShowArgs {
    pub spell: String,
}

pub struct ScryArgs {
    /// Spell to inspect. Omit to use the active manifest, or list all spells
    /// if no manifest is found.
    pub spell: Option<String>,
    /// Use a named profile from the manifest.
    pub profile: Option<String>,
}

pub struct CastArgs {
    /// Spell to cast. Omit to cast everything declared by the active manifest.
    pub spell: Option<String>,
    /// Override which channel to use (must exist on the spell).
    /// Only valid with a single named spell.
    pub via: Option<String>,
    /// Print the plan, don't execute.
    pub dry_run: bool,
    /// Recast even if `verify` already passes.
    pub recast: bool,
    /// Use a named profile from the manifest.
    pub profile: Option<String>,
}

pub struct ScribeArgs {
    pub name: String,
}

pub enum Command {
    /// List spells available in the grimoire.
    Ls(LsArgs),
    /// Render a spell's full schema.
    Show(ShowArgs),
    /// Report state without changing anything (verify + version_check).
    Scry(ScryArgs),
    /// Reach a declared state (idempotent: no-op if verify already passes).
    Cast(CastArgs),
    /// Scaffold a new personal spell. (Not yet implemented.)
    Scribe(ScribeArgs),
}

pub struct Cli {
    pub command: Command,
}

/// Why a command fails.
#[derive(Debug, Clone, PartialEq, Eq)]
pub enum CliError {
    /// `--via` was given without a spell name.
    ViaNeedsSpell,
    /// No manifest was found where one is needed.
    NoManifest,
    /// The named spell is not in the grimoire.
    SpellNotFound { name: String },
    /// The manifest is refused or names no requirements.
    Manifest(ManifestError),
    /// The plan could not be resolved.
    Resolve(ResolveError),
    /// The command exists but is not implemented in this build.
    NotImplemented { command: String },
    /// Some spells still failed `verify` after their cast.
    SpellsFailed { count: usize },
}

/// `s` padded with spaces to at least `w` characters, as `{:<w$}` pads.
pub open spec fn pad_right(s: Seq<char>, w: nat) -> Seq<char> {
    if s.len() >= w {
        s
    } else {
        s + Seq::new((w - s.len()) as nat, |i: int| ' ')
    }
}

/// `s` padded with spaces to at least `w` characters.
pub fn pad(s: &str, w: usize) -> (r: String)
    ensures
        r@ == pad_right(s@, w as nat),
{
    let mut out = String::from_str(s);
    let n = s.unicode_len();
    let mut k: usize = n;
    proof {
        assert(out@ =~= s@ + Seq::new((k - n) as nat, |i: int| ' '));
    }
    while k < w
        invariant
            n == s@.len(),
            n <= k <= w || (k == n && n >= w),
            out@ == s@ + Seq::new((k - n) as nat, |i: int| ' '),
        decreases w - k,
    {
        out.append(" ");
        proof {
            reveal_strlit(" ");
            assert(out@ =~= s@ + Seq::new((k + 1 - n) as nat, |i: int| ' '));
        }
        k = k + 1;
    }
    proof {
        if n >= w {
            assert(out@ =~= s@);
        }
    }
    out
}

/// The label of a spell's source in listings.
pub open spec fn source_name(s: Source) -> Seq<char> {
    match s {
        Source::Embedded => "embedded"@,
        Source::Personal => "personal"@,
    }
}

/// Whether `grimoire ls` with these flags lists the entry `e`: only
/// personal spells with `personal`, else only embedded ones with
/// `embedded`; and only those of the category, when one is named.
pub open spec fn ls_keeps(e: SpellEntry, personal: bool, embedded: bool, category: Option<Seq<char>>) -> bool {
    &&& if personal {
        e.source == Source::Personal
    } else if embedded {
        e.source == Source::Embedded
    } else {
        true
    }
    &&& match category {
        Some(c) => e.spell.category matches Some(x) && x@ == c,
        None => true,
    }
}

/// A row of `grimoire ls` by its characters: name, source, summary.
pub type LsRowView = (Seq<char>, Seq<char>, Seq<char>);

/// The rows that `grimoire ls` lists for the entries `es`, in their order.
pub open spec fn ls_select(
    es: Seq<SpellEntry>,
    personal: bool,
    embedded: bool,
    category: Option<Seq<char>>,
) -> Seq<LsRowView>
    decreases es.len(),
{
    if es.len() == 0 {
        seq![]
    } else {
        let rest = ls_select(es.drop_last(), personal, embedded, category);
        let e = es.last();
        if ls_keeps(e, personal, embedded, category) {
            rest.push((e.spell.name@, source_name(e.source), e.spell.summary@))
        } else {
            rest
        }
    }
}

/// One row of `grimoire ls`.
pub struct LsRow {
    pub name: String,
    pub source: &'static str,
    pub summary: String,
}

pub open spec fn ls_views(rows: Seq<LsRow>) -> Seq<LsRowView> {
    rows.map_values(|r: LsRow| (r.name@, r.source@, r.summary@))
}

/// The category that the flags name, by characters.
pub open spec fn category_of(args: &LsArgs) -> Option<Seq<char>> {
    match args.category {
        Some(c) => Some(c@),
        None => None,
    }
}

/// Whether the rows' names ascend strictly.
pub open spec fn rows_ascend(rows: Seq<LsRow>) -> bool {
    forall|i: int, j: int| 0 <= i < j < rows.len() ==> lex(#[trigger] rows[i].name@, #[trigger] rows[j].name@) == Order::Less
}

/// The rows that `grimoire ls` lists: the grimoire's entries in ascending
/// name order that the flags keep.
pub fn ls_rows(g: &Grimoire, args: &LsArgs) -> (r: Vec<LsRow>)
    ensures
        ls_views(r@) == ls_select(g.entries(), args.personal, args.embedded, category_of(args)),
        rows_ascend(r@),
{
    let es = g.iter();
    let ghost cat = category_of(args);
    let mut out: Vec<LsRow> = Vec::new();
    let mut i: usize = 0;
    proof {
        assert(es@.take(0) =~= Seq::<SpellEntry>::empty());
        assert(ls_views(out@) =~= Seq::<LsRowView>::empty());
    }
    while i < es.len()
        invariant
            i <= es.len(),
            es@ == g.entries(),
            cat == category_of(args),
            ls_views(out@) == ls_select(es@.take(i as int), args.personal, args.embedded, cat),
        decreases es.len() - i,
    {
        let e = &es[i];
        proof {
            assert(es@.take(i + 1).drop_last() =~= es@.take(i as int));
            assert(es@.take(i + 1).last() == es@[i as int]);
        }
        let source_ok = if args.personal {
            e.source == Source::Personal
        } else if args.embedded {
            e.source == Source::Embedded
        } else {
            true
        };
        let category_ok = match &args.category {
            Some(c) => match &e.spell.category {
                Some(x) => crate::text::str_eq(x.as_str(), c.as_str()),
                None => false,
            },
            None => true,
        };
        if source_ok && category_ok {
            let src: &'static str = match e.source {
                Source::Embedded => "embedded",
                Source::Personal => "personal",
            };
            let row = LsRow { name: e.spell.name.clone(), source: src, summary: e.spell.summary.clone() };
            let ghost before = out@;
            out.push(row);
            proof {
                assert(ls_views(out@) =~= ls_views(before).push((row.name@, row.source@, row.summary@)));
            }
        }
        i = i + 1;
    }
    proof {
        assert(es@.take(es.len() as int) =~= es@);
        lemma_ls_ascending(es@, args.personal, args.embedded, cat);
        let sel = ls_select(es@, args.personal, args.embedded, cat);
        assert(ls_views(out@) == sel);
        assert forall|i: int, j: int| 0 <= i < j < out@.len() implies lex(#[trigger] out@[i].name@, #[trigger] out@[j].name@)
            == Order::Less by {
            assert(sel[i].0 == out@[i].name@);
            assert(sel[j].0 == out@[j].name@);
        }
    }
    out
}

/// Every row that `grimoire ls` lists for `es` is named below `x` when every
/// entry of `es` is.
proof fn lemma_ls_below(es: Seq<SpellEntry>, personal: bool, embedded: bool, category: Option<Seq<char>>, x: Seq<char>)
    requires
        forall|j: int| 0 <= j < es.len() ==> lex(#[trigger] es[j].spell.name@, x) == Order::Less,
    ensures
        forall|i: int|
            0 <= i < ls_select(es, personal, embedded, category).len() ==> lex(
                #[trigger] ls_select(es, personal, embedded, category)[i].0,
                x,
            ) == Order::Less,
    decreases es.len(),
{
    if es.len() > 0 {
        let e0 = es.drop_last();
        assert forall|j: int| 0 <= j < e0.len() implies lex(#[trigger] e0[j].spell.name@, x) == Order::Less by {
            assert(e0[j] == es[j]);
        }
        lemma_ls_below(e0, personal, embedded, category, x);
        assert(es[es.len() - 1] == es.last());
    }
}

/// `grimoire ls` lists its rows in ascending name order, as sorting them by
/// name would.
pub proof fn lemma_ls_ascending(es: Seq<SpellEntry>, personal: bool, embedded: bool, category: Option<Seq<char>>)
    requires
        crate::grimoire::names_ascend(es),
    ensures
        forall|i: int, j: int|
            0 <= i < j < ls_select(es, personal, embedded, category).len() ==> lex(
                #[trigger] ls_select(es, personal, embedded, category)[i].0,
                #[trigger] ls_select(es, personal, embedded, category)[j].0,
            ) == Order::Less,
    decreases es.len(),
{
    if es.len() > 0 {
        let e0 = es.drop_last();
        let last = es.last();
        assert(crate::grimoire::names_ascend(e0)) by {
            assert forall|i: int, j: int| 0 <= i < j < e0.len() implies lex(
                #[trigger] e0[i].spell.name@,
                #[trigger] e0[j].spell.name@,
            ) == Order::Less by {
                assert(e0[i] == es[i] && e0[j] == es[j]);
            }
        }
        lemma_ls_ascending(e0, personal, embedded, category);
        assert forall|j: int| 0 <= j < e0.len() implies lex(#[trigger] e0[j].spell.name@, last.spell.name@)
            == Order::Less by {
            assert(e0[j] == es[j]);
            assert(last == es[es.len() - 1]);
        }
        lemma_ls_below(e0, personal, embedded, category, last.spell.name@);
    }
}

/// The widest of the names, in characters.
pub open spec fn widest(names: Seq<Seq<char>>) -> nat
    decreases names.len(),
{
    if names.len() == 0 {
        0
    } else {
        let w = widest(names.drop_last());
        if names.last().len() > w {
            names.last().len()
        } else {
            w
        }
    }
}

/// The width of the name column of `grimoire ls`.
pub fn ls_width(rows: &Vec<LsRow>) -> (r: usize)
    ensures
        r == widest(ls_views(rows@).map_values(|v: LsRowView| v.0)),
{
    let ghost names = ls_views(rows@).map_values(|v: LsRowView| v.0);
    let mut w: usize = 0;
    let mut i: usize = 0;
    proof {
        assert(names.take(0) =~= Seq::<Seq<char>>::empty());
    }
    while i < rows.len()
        invariant
            i <= rows.len(),
            names == ls_views(rows@).map_values(|v: LsRowView| v.0),
            w == widest(names.take(i as int)),
        decreases rows.len() - i,
    {
        let n = rows[i].name.as_str().unicode_len();
        proof {
            assert(names.take(i + 1).drop_last() =~= names.take(i as int));
            assert(names.take(i + 1).last() == rows@[i as int].name@);
        }
        if n > w {
            w = n;
        }
        i = i + 1;
    }
    proof {
        assert(names.take(rows.len() as int) =~= names);
    }
    w
}

/// A line of `grimoire ls`.
pub open spec fn ls_text(row: LsRowView, width: nat) -> Seq<char> {
    "  "@ + pad_right(row.0, width) + "  ["@ + row.1 + "]  "@ + row.2
}

/// The line that `grimoire ls` prints for `row`, its name padded to `width`.
pub fn ls_line(row: &LsRow, width: usize) -> (r: String)
    ensures
        r@ == ls_text((row.name@, row.source@, row.summary@), width as nat),
{
    let mut s = String::from_str("  ");
    s.append(pad(row.name.as_str(), width).as_str());
    s.append("  [");
    s.append(row.source);
    s.append("]  ");
    s.append(row.summary.as_str());
    s
}

/// The notes after a spell's status in `grimoire scry`: its version, that it
/// is only a dependency, and for a drifted spell the channel it was last
/// cast with.
pub open spec fn scry_note(state: State, is_seed: bool) -> Seq<char> {
    version_note(
        match state.version {
            Some(v) => Some(v@),
            None => None,
        },
    ) + (if !is_seed {
        " (dependency)"@
    } else {
        seq![]
    }) + (if state.status == Status::Drifted && state.last_cast_channel is Some {
        " (last cast via "@ + state.last_cast_channel->0@ + ")"@
    } else {
        seq![]
    })
}

/// A line of `grimoire scry`.
pub open spec fn scry_text(state: State, name: Seq<char>, width: nat, is_seed: bool) -> Seq<char> {
    "  "@ + state.status.mark_of() + " "@ + pad_right(name, width) + "  "@ + state.status.name_of() + scry_note(
        state,
        is_seed,
    )
}

/// The line that `grimoire scry` prints for the spell `name` in `state`.
pub fn scry_line(state: &State, name: &str, width: usize, is_seed: bool) -> (r: String)
    ensures
        r@ == scry_text(*state, name@, width as nat, is_seed),
{
    let mut suffix = match &state.version {
        Some(v) => version_suffix(Some(v.as_str())),
        None => version_suffix(None),
    };
    if !is_seed {
        suffix.append(" (dependency)");
    }
    if state.status == Status::Drifted {
        match &state.last_cast_channel {
            Some(ch) => {
                suffix.append(" (last cast via ");
                suffix.append(ch.as_str());
                suffix.append(")");
            },
            None => {},
        }
    }
    let mut s = String::from_str("  ");
    s.append(state.status.icon());
    s.append(" ");
    s.append(pad(name, width).as_str());
    s.append("  ");
    s.append(state.status.label());
    s.append(suffix.as_str());
    s
}

/// One spell that `grimoire scry` reports on.
pub struct ScryRow<'g> {
    pub name: String,
    pub spell: &'g Spell,
    pub requirement: Option<Requirement>,
    pub is_seed: bool,
}

/// Whether the rows are the entries, one each in order, each a seed with
/// no requirement.
pub open spec fn every_spell_rows<'g>(rows: Seq<ScryRow<'g>>, es: Seq<SpellEntry>) -> bool {
    &&& rows.len() == es.len()
    &&& forall|i: int|
        0 <= i < rows.len() ==> #[trigger] rows[i].name@ == es[i].spell.name@ && *rows[i].spell == es[i].spell
            && rows[i].requirement is None && rows[i].is_seed
}

/// A bare requirement on the spell `name`.
fn bare_requirement(name: &str) -> (r: Requirement)
    ensures
        r@ == (name@, Seq::<(crate::constraint::Op, Seq<char>)>::empty()),
{
    let r = Requirement { name: String::from_str(name), constraints: Vec::new() };
    assert(crate::constraint::constraint_views(r.constraints@) =~= Seq::<(crate::constraint::Op, Seq<char>)>::empty());
    r
}

/// Whether each row carries the grimoire's spell of its own name.
pub open spec fn rows_carry_spells<'g>(rows: Seq<ScryRow<'g>>, g: Map<Seq<char>, SpellEntry>) -> bool {
    forall|i: int|
        0 <= i < rows.len() ==> #[trigger] g.contains_key(rows[i].name@) && *rows[i].spell == g[rows[i].name@].spell
}

/// A scry row by its name, requirement and seed mark.
pub open spec fn scry_row_view(r: ScryRow) -> (Seq<char>, Option<crate::resolve::Rv>, bool) {
    (
        r.name@,
        match r.requirement {
            Some(q) => Some(q@),
            None => None,
        },
        r.is_seed,
    )
}

/// The rows of a resolved plan: each step's spell, requirement and seed
/// mark.
pub open spec fn plan_rows(steps: Seq<Sv>) -> Seq<(Seq<char>, Option<crate::resolve::Rv>, bool)> {
    steps.map_values(|s: Sv| (s.0.0, Some(s.0), s.1))
}

/// Whether the rows are the steps, one each in order, by name and spell.
pub open spec fn rows_follow_steps<'g>(rows: Seq<ScryRow<'g>>, steps: Seq<crate::resolve::PlanStep<'g>>) -> bool {
    &&& rows.len() == steps.len()
    &&& forall|i: int|
        0 <= i < rows.len() ==> #[trigger] rows[i].name@ == steps[i].requirement.name@ && *rows[i].spell
            == *steps[i].spell
}

/// Turn a resolved plan into scry rows.
fn rows_of_plan<'g>(plan: crate::resolve::ResolvedPlan<'g>) -> (r: Vec<ScryRow<'g>>)
    ensures
        r@.map_values(|x: ScryRow<'g>| scry_row_view(x)) == plan_rows(step_views(plan.steps@)),
        rows_follow_steps(r@, plan.steps@),
{
    let mut out: Vec<ScryRow<'g>> = Vec::new();
    let steps = plan.steps;
    let ghost sv = step_views(steps@);
    let mut i: usize = 0;
    while i < steps.len()
        invariant
            i <= steps.len(),
            sv == step_views(steps@),
            out@.map_values(|x: ScryRow<'g>| scry_row_view(x)) == plan_rows(sv).take(i as int),
            out.len() == i,
            forall|j: int|
                0 <= j < i ==> #[trigger] out@[j].name@ == steps@[j].requirement.name@ && *out@[j].spell
                    == *steps@[j].spell,
        decreases steps.len() - i,
    {
        let st = &steps[i];
        let req = crate::resolve::copy_requirement(&st.requirement);
        let row = ScryRow { name: st.requirement.name.clone(), spell: st.spell, requirement: Some(req), is_seed: st.is_seed };
        let ghost before = out@;
        out.push(row);
        proof {
            assert(out@.map_values(|x: ScryRow<'g>| scry_row_view(x)) =~= before.map_values(
                |x: ScryRow<'g>| scry_row_view(x),
            ).push(scry_row_view(row)));
            assert(plan_rows(sv).take(i + 1) =~= plan_rows(sv).take(i as int).push(plan_rows(sv)[i as int]));
            assert forall|j: int| 0 <= j < i + 1 implies #[trigger] out@[j].name@ == steps@[j].requirement.name@
                && *out@[j].spell == *steps@[j].spell by {
                if j < i {
                    assert(out@[j] == before[j]);
                } else {
                    assert(out@[j] == row);
                    assert(*st == steps@[j]);
                }
            }
        }
        i = i + 1;
    }
    proof {
        assert(plan_rows(sv).take(steps.len() as int) =~= plan_rows(sv));
        assert(steps@ == plan.steps@);
        assert(rows_follow_steps(out@, steps@));
    }
    out
}

/// The rows that `grimoire scry` reports on. With a spell named: that spell
/// and what it requires, as resolving it plans them, once the spell is known
/// to be in the grimoire. Else with a manifest: the plan of its
/// requirements. Else every spell of the grimoire, each a seed with no
/// requirement.
pub fn scry_rows<'g>(g: &'g Grimoire, spell: Option<&str>, manifest: Option<&Manifest>, profile: Option<&str>) -> (r: Result<
    Vec<ScryRow<'g>>,
    CliError,
>)
    requires
        grimoire_defined(g@),
        manifest is Some ==> manifest->0.keys_ascending(),
        spell is None && manifest is Some ==> match manifest->0.selected(
            match profile {
                Some(p) => Some(p@),
                None => None,
            },
        ) {
            Some(es) => requirements_in_bounds(entry_views(es)),
            None => true,
        },
    ensures
        spell is Some ==> {
            let name = spell->0@;
            if !g@.contains_key(name) {
                r matches Err(CliError::SpellNotFound { name: n }) && n@ == name
            } else {
                match resolution(g@, seq![(name, Seq::empty())]) {
                    Ok(steps) => r matches Ok(rows) && rows@.map_values(|x: ScryRow<'g>| scry_row_view(x))
                        == plan_rows(steps) && rows_carry_spells(rows@, g@),
                    Err(f) => r matches Err(CliError::Resolve(e)) && e@ == f,
                }
            }
        },
        spell is None && manifest is Some ==> match manifest->0.selected(
            match profile {
                Some(p) => Some(p@),
                None => None,
            },
        ) {
            None => r matches Err(CliError::Manifest(ManifestError::NoProfile { name })) && name@ == profile->0@,
            Some(es) => match requirements_parse(entry_views(es)) {
                Err((i, e)) => r matches Err(CliError::Manifest(ManifestError::InvalidSpell { entry, error }))
                    && entry@ == entry_views(es)[i] && error@ == e,
                Ok(v) => match resolution(g@, v) {
                    Ok(steps) => r matches Ok(rows) && rows@.map_values(|x: ScryRow<'g>| scry_row_view(x))
                        == plan_rows(steps) && rows_carry_spells(rows@, g@),
                    Err(f) => r matches Err(CliError::Resolve(e)) && e@ == f,
                },
            },
        },
        spell is None && manifest is None ==> (r matches Ok(rows) && every_spell_rows(rows@, g.entries())),
{
    proof {
        crate::grimoire::lemma_grimoire_finite(g);
    }
    match spell {
        Some(name) => {
            if g.get(name).is_none() {
                return Err(CliError::SpellNotFound { name: String::from_str(name) });
            }
            let seed = bare_requirement(name);
            let seeds = vec![seed];
            proof {
                assert(requirement_views(seeds@) =~= seq![(name@, Seq::<crate::resolve::Cv>::empty())]);
                lemma_defined_in_bounds(g@, requirement_views(seeds@), Map::empty());
            }
            match resolve(g, seeds.as_slice()) {
                Ok(plan) => {
                    let ghost ps = plan.steps@;
                    let rows = rows_of_plan(plan);
                    proof {
                        assert forall|i: int| 0 <= i < rows.len() implies #[trigger] g@.contains_key(rows@[i].name@)
                            && *rows@[i].spell == g@[rows@[i].name@].spell by {
                            assert(rows@[i].name@ == ps[i].requirement.name@);
                            assert(g@.contains_key(ps[i].requirement.name@));
                        }
                    }
                    Ok(rows)
                },
                Err(e) => Err(CliError::Resolve(e)),
            }
        },
        None => match manifest {
            Some(m) => {
                let seeds = match m.requirements(profile) {
                    Ok(s) => s,
                    Err(e) => {
                        return Err(CliError::Manifest(e));
                    },
                };
                proof {
                    lemma_defined_in_bounds(g@, requirement_views(seeds@), Map::empty());
                }
                match resolve(g, seeds.as_slice()) {
                    Ok(plan) => {
                    let ghost ps = plan.steps@;
                    let rows = rows_of_plan(plan);
                    proof {
                        assert forall|i: int| 0 <= i < rows.len() implies #[trigger] g@.contains_key(rows@[i].name@)
                            && *rows@[i].spell == g@[rows@[i].name@].spell by {
                            assert(rows@[i].name@ == ps[i].requirement.name@);
                            assert(g@.contains_key(ps[i].requirement.name@));
                        }
                    }
                    Ok(rows)
                },
                    Err(e) => Err(CliError::Resolve(e)),
                }
            },
            None => {
                let es = g.iter();
                let mut out: Vec<ScryRow<'g>> = Vec::new();
                let mut i: usize = 0;
                while i < es.len()
                    invariant
                        i <= es.len(),
                        es@ == g.entries(),
                        out.len() == i,
                        forall|j: int|
                            0 <= j < i ==> #[trigger] out@[j].name@ == es@[j].spell.name@ && *out@[j].spell
                                == es@[j].spell && out@[j].requirement is None && out@[j].is_seed,
                    decreases es.len() - i,
                {
                    let ghost before = out@;
                    out.push(ScryRow { name: es[i].spell.name.clone(), spell: &es[i].spell, requirement: None, is_seed: true });
                    proof {
                        assert forall|j: int| 0 <= j < i + 1 implies #[trigger] out@[j].name@ == es@[j].spell.name@
                            && *out@[j].spell == es@[j].spell && out@[j].requirement is None && out@[j].is_seed by {
                            if j < i {
                                assert(out@[j] == before[j]);
                            }
                        }
                    }
                    i = i + 1;
                }
                assert(every_spell_rows(out@, g.entries()));
                Ok(out)
            },
        },
    }
}

/// What `grimoire cast` does with one step of its plan.
#[derive(Debug, Clone, Copy, PartialEq, Eq, Structural)]
pub enum StepPlan {
    /// Run the cast, with or without recasting over a passing `verify`.
    Cast { recast: bool },
    /// Nothing to do: the spell is cast.
    AlreadyCast,
    /// Skip and report: the spell drifted.
    SkipDrifted,
    /// Skip and report: the spell is invalid.
    SkipInvalid,
    /// Skip and report: no channel of the spell applies here.
    SkipUnsupported,
}

/// The action for a step in state `status`: a cast spell is recast only
/// when it is a seed and `--recast` was given; missing and outdated spells
/// are cast, outdated ones recasting over their passing `verify`; drifted
/// and invalid spells are skipped and reported unless they are seeds and
/// `--recast` forces them; unsupported spells are skipped and reported.
pub fn plan_step(status: Status, is_seed: bool, recast: bool) -> (r: StepPlan)
    ensures
        status == Status::Cast ==> r == (if is_seed && recast {
            (StepPlan::Cast { recast: true })
        } else {
            StepPlan::AlreadyCast
        }),
        status == Status::Missing ==> r == (StepPlan::Cast { recast: false }),
        status == Status::Outdated ==> r == (StepPlan::Cast { recast: true }),
        (status == Status::Drifted || status == Status::Invalid) && is_seed && recast ==> r
            == (StepPlan::Cast { recast: true }),
        status == Status::Drifted && !(is_seed && recast) ==> r == StepPlan::SkipDrifted,
        status == Status::Invalid && !(is_seed && recast) ==> r == StepPlan::SkipInvalid,
        status == Status::Unsupported ==> r == StepPlan::SkipUnsupported,
{
    match status {
        Status::Cast => if is_seed && recast {
            StepPlan::Cast { recast: true }
        } else {
            StepPlan::AlreadyCast
        },
        Status::Missing => StepPlan::Cast { recast: false },
        Status::Outdated => StepPlan::Cast { recast: true },
        Status::Drifted => if is_seed && recast {
            StepPlan::Cast { recast: true }
        } else {
            StepPlan::SkipDrifted
        },
        Status::Invalid => if is_seed && recast {
            StepPlan::Cast { recast: true }
        } else {
            StepPlan::SkipInvalid
        },
        Status::Unsupported => StepPlan::SkipUnsupported,
    }
}

/// The seeds and per-spell channel overrides of `grimoire cast`: a named
/// spell alone, with the `--via` channel if given; else the manifest's
/// requirements (of the profile, if named) and the channels its overrides
/// set. `--via` without a spell, and no manifest where one is needed, are
/// errors.
pub fn cast_seeds(args: &CastArgs, manifest: Option<&Manifest>) -> (r: Result<(Vec<Requirement>, Vec<(String, String)>), CliError>)
    requires
        manifest is Some ==> manifest->0.keys_ascending(),
        args.spell is None && args.via is None && manifest is Some ==> match manifest->0.selected(
            match args.profile {
                Some(p) => Some(p@),
                None => None,
            },
        ) {
            Some(es) => requirements_in_bounds(entry_views(es)),
            None => true,
        },
    ensures
        args.spell is Some ==> (r matches Ok((seeds, overrides)) && requirement_views(seeds@) == seq![
            (args.spell->0@, Seq::<crate::resolve::Cv>::empty()),
        ] && match args.via {
            Some(v) => overrides.len() == 1 && overrides@[0].0@ == args.spell->0@ && overrides@[0].1@ == v@,
            None => overrides.len() == 0,
        }),
        args.spell is None && args.via is Some ==> r == Err::<(Vec<Requirement>, Vec<(String, String)>), CliError>(
            CliError::ViaNeedsSpell,
        ),
        args.spell is None && args.via is None && manifest is None ==> r == Err::<
            (Vec<Requirement>, Vec<(String, String)>),
            CliError,
        >(CliError::NoManifest),
        args.spell is None && args.via is None && manifest is Some ==> match manifest->0.selected(
            match args.profile {
                Some(p) => Some(p@),
                None => None,
            },
        ) {
            None => r matches Err(CliError::Manifest(ManifestError::NoProfile { name })) && name@
                == args.profile->0@,
            Some(es) => match requirements_parse(entry_views(es)) {
                Ok(v) => r matches Ok((seeds, overrides)) && requirement_views(seeds@) == v
                    && override_views(overrides@) == channel_overrides(manifest->0.overrides@),
                Err((i, e)) => r matches Err(CliError::Manifest(ManifestError::InvalidSpell { entry, error }))
                    && entry@ == entry_views(es)[i] && error@ == e,
            },
        },
{
    match &args.spell {
        Some(name) => {
            let seed = bare_requirement(name.as_str());
            let seeds = vec![seed];
            let mut overrides: Vec<(String, String)> = Vec::new();
            match &args.via {
                Some(v) => overrides.push((name.clone(), v.clone())),
                None => {},
            }
            proof {
                assert(requirement_views(seeds@) =~= seq![(name@, Seq::<crate::resolve::Cv>::empty())]);
            }
            Ok((seeds, overrides))
        },
        None => {
            if args.via.is_some() {
                return Err(CliError::ViaNeedsSpell);
            }
            let m = match manifest {
                Some(m) => m,
                None => {
                    return Err(CliError::NoManifest);
                },
            };
            let profile: Option<&str> = match &args.profile {
                Some(p) => Some(p.as_str()),
                None => None,
            };
            let seeds = match m.requirements(profile) {
                Ok(s) => s,
                Err(e) => {
                    return Err(CliError::Manifest(e));
                },
            };
            Ok((seeds, manifest_channels(m)))
        },
    }
}

/// Overrides by their characters.
pub open spec fn override_views(os: Seq<(String, String)>) -> Seq<(Seq<char>, Seq<char>)> {
    os.map_values(|o: (String, String)| (o.0@, o.1@))
}

/// The channels that the manifest's overrides set, spell by spell.
pub open spec fn channel_overrides(os: Seq<(String, crate::manifest::Override)>) -> Seq<(Seq<char>, Seq<char>)>
    decreases os.len(),
{
    if os.len() == 0 {
        seq![]
    } else {
        let rest = channel_overrides(os.drop_last());
        match os.last().1.channel {
            Some(c) => rest.push((os.last().0@, c@)),
            None => rest,
        }
    }
}

/// The channels that the manifest's overrides set.
fn manifest_channels(m: &Manifest) -> (r: Vec<(String, String)>)
    ensures
        override_views(r@) == channel_overrides(m.overrides@),
{
    let mut out: Vec<(String, String)> = Vec::new();
    let mut i: usize = 0;
    proof {
        assert(m.overrides@.take(0) =~= Seq::<(String, crate::manifest::Override)>::empty());
        assert(override_views(out@) =~= Seq::<(Seq<char>, Seq<char>)>::empty());
    }
    while i < m.overrides.len()
        invariant
            i <= m.overrides.len(),
            override_views(out@) == channel_overrides(m.overrides@.take(i as int)),
        decreases m.overrides.len() - i,
    {
        proof {
            assert(m.overrides@.take(i + 1).drop_last() =~= m.overrides@.take(i as int));
            assert(m.overrides@.take(i + 1).last() == m.overrides@[i as int]);
        }
        match &m.overrides[i].1.channel {
            Some(c) => {
                let ghost before = out@;
                out.push((m.overrides[i].0.clone(), c.clone()));
                proof {
                    assert(override_views(out@) =~= override_views(before).push(
                        (m.overrides@[i as int].0@, c@),
                    ));
                }
            },
            None => {},
        }
        i = i + 1;
    }
    proof {
        assert(m.overrides@.take(m.overrides.len() as int) =~= m.overrides@);
    }
    out
}

/// The channel override for the spell `name`, if the list has one.
pub fn override_for<'a>(overrides: &'a Vec<(String, String)>, name: &str) -> (r: Option<&'a str>)
    ensures
        match r {
            Some(c) => exists|i: int|
                0 <= i < overrides.len() && overrides@[i].0@ == name@ && overrides@[i].1@ == c@ && forall|j: int|
                    0 <= j < i ==> overrides@[j].0@ != name@,
            None => forall|i: int| 0 <= i < overrides.len() ==> overrides@[i].0@ != name@,
        },
{
    let mut i: usize = 0;
    while i < overrides.len()
        invariant
            i <= overrides.len(),
            forall|j: int| 0 <= j < i ==> overrides@[j].0@ != name@,
        decreases overrides.len() - i,
    {
        if crate::text::str_eq(overrides[i].0.as_str(), name) {
            return Some(overrides[i].1.as_str());
        }
        i = i + 1;
    }
    None
}

/// The tally of a `grimoire cast` run.
#[derive(Debug, Clone, Copy, PartialEq, Eq, Structural)]
pub struct CastSummary {
    pub cast: usize,
    pub already_cast: usize,
    pub dry_run: usize,
    pub skipped_drifted: usize,
    pub skipped_invalid: usize,
    pub skipped_unsupported: usize,
    pub verify_still_fails: usize,
}

/// The part of the summary for a count: the count and its words, or nothing
/// for zero.
pub open spec fn count_part(parts: Seq<Seq<char>>, n: usize, words: Seq<char>) -> Seq<Seq<char>> {
    if n > 0 {
        parts.push(decimal(n as nat) + words)
    } else {
        parts
    }
}

/// The parts of the summary line, in order.
pub open spec fn summary_parts(s: CastSummary) -> Seq<Seq<char>> {
    let p0 = count_part(seq![], s.cast, " cast"@);
    let p1 = count_part(p0, s.already_cast, " already cast"@);
    let p2 = count_part(p1, s.dry_run, " planned"@);
    let p3 = count_part(p2, s.skipped_drifted, " drifted (skipped)"@);
    let p4 = count_part(p3, s.skipped_invalid, " invalid (skipped)"@);
    let p5 = count_part(p4, s.skipped_unsupported, " unsupported (skipped)"@);
    count_part(p5, s.verify_still_fails, " failed"@)
}

/// The summary line: the parts joined by commas, or `(no spells)`.
pub open spec fn summary_text(s: CastSummary) -> Seq<char> {
    if summary_parts(s).len() == 0 {
        "(no spells)"@
    } else {
        join(summary_parts(s), ", "@)
    }
}

/// Push the part for a count onto `parts`.
fn push_count(parts: &mut Vec<String>, n: usize, words: &str)
    ensures
        string_views(final(parts)@) == count_part(string_views(old(parts)@), n, words@),
{
    if n > 0 {
        let mut t = usize_text(n);
        t.append(words);
        let ghost before = parts@;
        parts.push(t);
        proof {
            assert(string_views(parts@) =~= string_views(before).push(t@));
        }
    }
}

impl CastSummary {
    /// A tally with nothing counted.
    pub fn new() -> (s: CastSummary)
        ensures
            s.cast == 0 && s.already_cast == 0 && s.dry_run == 0 && s.skipped_drifted == 0
                && s.skipped_invalid == 0 && s.skipped_unsupported == 0 && s.verify_still_fails == 0,
    {
        CastSummary {
            cast: 0,
            already_cast: 0,
            dry_run: 0,
            skipped_drifted: 0,
            skipped_invalid: 0,
            skipped_unsupported: 0,
            verify_still_fails: 0,
        }
    }

    /// Count the outcome of one cast.
    pub fn record(&mut self, o: Outcome)
        requires
            old(self).cast < usize::MAX,
            old(self).already_cast < usize::MAX,
            old(self).dry_run < usize::MAX,
            old(self).verify_still_fails < usize::MAX,
        ensures
            final(self).cast == old(self).cast + (if o == Outcome::Cast { 1int } else { 0 }),
            final(self).already_cast == old(self).already_cast + (if o == Outcome::AlreadyCast { 1int } else { 0 }),
            final(self).dry_run == old(self).dry_run + (if o == Outcome::DryRun { 1int } else { 0 }),
            final(self).verify_still_fails == old(self).verify_still_fails + (if o == Outcome::VerifyStillFails {
                1int
            } else {
                0
            }),
            final(self).skipped_drifted == old(self).skipped_drifted,
            final(self).skipped_invalid == old(self).skipped_invalid,
            final(self).skipped_unsupported == old(self).skipped_unsupported,
    {
        match o {
            Outcome::AlreadyCast => self.already_cast = self.already_cast + 1,
            Outcome::Cast => self.cast = self.cast + 1,
            Outcome::DryRun => self.dry_run = self.dry_run + 1,
            Outcome::VerifyStillFails => self.verify_still_fails = self.verify_still_fails + 1,
        }
    }

    /// The one-line summary printed after a multi-spell cast.
    pub fn line(&self) -> (r: String)
        ensures
            r@ == summary_text(*self),
    {
        let mut parts: Vec<String> = Vec::new();
        assert(string_views(parts@) =~= Seq::<Seq<char>>::empty());
        push_count(&mut parts, self.cast, " cast");
        push_count(&mut parts, self.already_cast, " already cast");
        push_count(&mut parts, self.dry_run, " planned");
        push_count(&mut parts, self.skipped_drifted, " drifted (skipped)");
        push_count(&mut parts, self.skipped_invalid, " invalid (skipped)");
        push_count(&mut parts, self.skipped_unsupported, " unsupported (skipped)");
        push_count(&mut parts, self.verify_still_fails, " failed");
        if parts.len() == 0 {
            String::from_str("(no spells)")
        } else {
            crate::text::join_strings(&parts, ", ")
        }
    }

    /// How the run ends: with an error counting the spells that still fail
    /// `verify`, if any do.
    pub fn verdict(&self) -> (r: Result<(), CliError>)
        ensures
            self.verify_still_fails > 0 ==> r == Err::<(), CliError>(
                CliError::SpellsFailed { count: self.verify_still_fails },
            ),
            self.verify_still_fails == 0 ==> r is Ok,
    {
        if self.verify_still_fails > 0 {
            Err(CliError::SpellsFailed { count: self.verify_still_fails })
        } else {
            Ok(())
        }
    }
}


/// The error of a command that is not implemented in this build.
pub fn stub(command: &str) -> (r: Result<(), CliError>)
    ensures
        r matches Err(CliError::NotImplemented { command: c }) && c@ == command@,
{
    Err(CliError::NotImplemented { command: String::from_str(command) })
}

/// Why a command failed, as a sentence.
pub open spec fn cli_message(e: CliError) -> Seq<char> {
    match e {
        CliError::ViaNeedsSpell => "--via requires a single spell name"@,
        CliError::NoManifest =>
            "no manifest found (.grimoire.toml in cwd or ancestors, or ~/.config/grimoire/manifest.toml)"@,
        CliError::SpellNotFound { name } => "spell "@ + quoted(name@) + " not found"@,
        CliError::Manifest(m) => crate::manifest::manifest_message(m@),
        CliError::Resolve(r) => crate::resolve::resolve_message(r@),
        CliError::NotImplemented { command } => "`grimoire "@ + command@ + "` is not yet implemented in this build"@,
        CliError::SpellsFailed { count } => decimal(count as nat) + " spells failed to reach state"@,
    }
}

impl CliError {
    /// The error as a sentence.
    pub fn message(&self) -> (r: String)
        ensures
            r@ == cli_message(*self),
    {
        match self {
            CliError::ViaNeedsSpell => String::from_str("--via requires a single spell name"),
            CliError::NoManifest => String::from_str(
                "no manifest found (.grimoire.toml in cwd or ancestors, or ~/.config/grimoire/manifest.toml)",
            ),
            CliError::SpellNotFound { name } => {
                let mut s = String::from_str("spell ");
                push_quoted(&mut s, name.as_str());
                s.append(" not found");
                proof {
                    assert(s@ =~= cli_message(*self));
                }
                s
            },
            CliError::Manifest(m) => m.message(),
            CliError::Resolve(r) => r.message(),
            CliError::NotImplemented { command } => {
                let mut s = String::from_str("`grimoire ");
                s.append(command.as_str());
                s.append("` is not yet implemented in this build");
                proof {
                    assert(s@ =~= cli_message(*self));
                }
                s
            },
            CliError::SpellsFailed { count } => {
                let mut s = usize_text(*count);
                s.append(" spells failed to reach state");
                s
            },
        }
    }
}

} // verus!
