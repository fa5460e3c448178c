//! Dependency resolution for spells.
//!
//! Given a set of seed requirements, expand transitively through each spell's
//! `requires:` list, merge constraints (AND), and produce a topologically
//! sorted plan. Dependencies come before dependents.
use crate::constraint::{
    lemma_requirements_parse_elem, requirement_parse,
    constraint_views, entry_views, requirement_views, requirements_in_bounds, requirements_parse,
    Constraint, ConstraintError, Op, ParseFailure, Requirement,
};
use crate::grimoire::{lemma_grimoire_finite, Grimoire, SpellEntry};
use crate::spell::Spell;
use crate::topo::{
    ascending_indices, dep_views, graph_ok, has_cycle, idx_names, lemma_topo_order, topo_order,
    topo_sort, vec_deps, Deps,
};
use crate::text::{
    ascending, ascending_names, copy_strings, index_in, lemma_ascending_no_dup, lemma_ascending_unique,
    lemma_index_in, lemma_index_in_unique, position, quoted, string_views,
};
use vstd::prelude::*;

verus! {

/// A comparator by its characters.
pub type Cv = (Op, Seq<char>);

/// A requirement by its characters: the spell name and its comparators.
pub type Rv = (Seq<char>, Seq<Cv>);

/// The comparators gathered for each spell reached.
pub type Acc = Map<Seq<char>, Seq<Cv>>;

/// The `requires` entries of the spell named `n`.
pub open spec fn requires_of(g: Map<Seq<char>, SpellEntry>, n: Seq<char>) -> Seq<Seq<char>> {
    entry_views(g[n].spell.requires@)
}

/// The spell names that requirements name, in order.
pub open spec fn dep_names(rs: Seq<Rv>) -> Seq<Seq<char>> {
    rs.map_values(|r: Rv| r.0)
}

/// Why a set of requirements could not be resolved, by characters.
pub enum ResolveFault {
    /// A requirement names a spell that is not in the grimoire.
    NotInGrimoire(Seq<char>),
    /// The spell (first) has a `requires` entry (second) that does not parse.
    InvalidRequires(Seq<char>, Seq<char>, ParseFailure),
    /// The spells, in ascending order, that a dependency cycle leaves unplaced.
    Cycle(Seq<Seq<char>>),
}

pub proof fn lemma_acc_grows(g: Map<Seq<char>, SpellEntry>, acc: Acc, name: Seq<char>, cs: Seq<Cv>)
    requires
        g.dom().finite(),
        acc.dom().subset_of(g.dom()),
        g.contains_key(name),
        !acc.contains_key(name),
    ensures
        acc.insert(name, cs).dom().subset_of(g.dom()),
        acc.insert(name, cs).dom().len() == acc.dom().len() + 1,
        acc.insert(name, cs).dom().len() <= g.dom().len(),
{
    vstd::set_lib::lemma_len_subset(acc.dom(), g.dom());
    assert(acc.insert(name, cs).dom() == acc.dom().insert(name));
    vstd::set_lib::lemma_len_subset(acc.dom().insert(name), g.dom());
}

/// What expanding the queue of requirements breadth-first gives: for each
/// spell reached, its gathered comparators and the names it requires; or the
/// first failure met. A requirement on a spell already reached only adds its
/// comparators; one on a new spell looks the spell up and queues what it
/// requires.
pub open spec fn expand(g: Map<Seq<char>, SpellEntry>, queue: Seq<Rv>, acc: Acc, deps: Deps) -> Result<
    (Acc, Deps),
    ResolveFault,
>
    decreases g.dom().len() - acc.dom().len(), queue.len(),
    when g.dom().finite() && acc.dom().subset_of(g.dom())
{
    if queue.len() == 0 {
        Ok((acc, deps))
    } else {
        let name = queue[0].0;
        let cs = queue[0].1;
        if acc.contains_key(name) {
            proof {
                assert(acc.insert(name, acc[name] + cs).dom() =~= acc.dom());
            }
            expand(g, queue.drop_first(), acc.insert(name, acc[name] + cs), deps)
        } else if !g.contains_key(name) {
            Err(ResolveFault::NotInGrimoire(name))
        } else {
            match requirements_parse(requires_of(g, name)) {
                Err((i, e)) => Err(ResolveFault::InvalidRequires(name, requires_of(g, name)[i], e)),
                Ok(rs) => {
                    proof {
                        lemma_acc_grows(g, acc, name, cs);
                    }
                    expand(
                        g,
                        queue.drop_first() + rs,
                        acc.insert(name, cs),
                        deps.insert(name, dep_names(rs)),
                    )
                },
            }
        }
    }
}

/// Whether every `requires` list that expanding the queue parses is one on
/// which parsing is defined.
pub open spec fn expand_in_bounds(g: Map<Seq<char>, SpellEntry>, queue: Seq<Rv>, acc: Acc) -> bool
    decreases g.dom().len() - acc.dom().len(), queue.len(),
    when g.dom().finite() && acc.dom().subset_of(g.dom())
{
    if queue.len() == 0 {
        true
    } else {
        let name = queue[0].0;
        let cs = queue[0].1;
        if acc.contains_key(name) {
            proof {
                assert(acc.insert(name, acc[name] + cs).dom() =~= acc.dom());
            }
            expand_in_bounds(g, queue.drop_first(), acc.insert(name, acc[name] + cs))
        } else if !g.contains_key(name) {
            true
        } else {
            requirements_in_bounds(requires_of(g, name)) && match requirements_parse(
                requires_of(g, name),
            ) {
                Err(_) => true,
                Ok(rs) => {
                    proof {
                        lemma_acc_grows(g, acc, name, cs);
                    }
                    expand_in_bounds(g, queue.drop_first() + rs, acc.insert(name, cs))
                },
            }
        }
    }
}

/// The nodes of `nodes` that `order` does not hold, in order.
pub open spec fn unplaced(nodes: Seq<Seq<char>>, order: Seq<Seq<char>>) -> Seq<Seq<char>>
    decreases nodes.len(),
{
    if nodes.len() == 0 {
        seq![]
    } else {
        let rest = unplaced(nodes.drop_last(), order);
        if order.contains(nodes.last()) {
            rest
        } else {
            rest.push(nodes.last())
        }
    }
}

/// A plan step by its characters: the requirement and whether it was a seed.
pub type Sv = (Rv, bool);

/// What resolving `seeds` gives: the spells reached, dependencies first and
/// ties by name, each with its gathered comparators and whether it was a
/// seed; or the failure.
pub open spec fn resolution(g: Map<Seq<char>, SpellEntry>, seeds: Seq<Rv>) -> Result<Seq<Sv>, ResolveFault> {
    match expand(g, seeds, Map::empty(), Map::empty()) {
        Err(f) => Err(f),
        Ok((acc, deps)) => {
            let nodes = ascending_names(acc.dom());
            let order = topo_order(nodes, deps);
            if order.len() < nodes.len() {
                Err(ResolveFault::Cycle(unplaced(nodes, order)))
            } else {
                Ok(order.map_values(|n: Seq<char>| ((n, acc[n]), dep_names(seeds).contains(n))))
            }
        },
    }
}

/// One step in a cast plan: a spell, its accumulated constraint, and whether
/// the user explicitly asked for it (`true`) or it was pulled in by another
/// spell's `requires:` (`false`).
#[derive(Debug, Clone)]
pub struct PlanStep<'g> {
    pub spell: &'g Spell,
    pub requirement: Requirement,
    pub is_seed: bool,
}

#[derive(Debug, Clone)]
pub struct ResolvedPlan<'g> {
    pub steps: Vec<PlanStep<'g>>,
}

/// Why a set of requirements could not be resolved.
#[derive(Debug, Clone, PartialEq, Eq)]
pub enum ResolveError {
    /// A requirement names a spell that is not in the grimoire.
    NotInGrimoire { name: String },
    /// A spell's `requires` entry does not parse.
    InvalidRequires { spell: String, entry: String, error: ConstraintError },
    /// A dependency cycle leaves these spells unplaced.
    Cycle { involving: Vec<String> },
}

impl View for ResolveError {
    type V = ResolveFault;

    open spec fn view(&self) -> ResolveFault {
        match self {
            ResolveError::NotInGrimoire { name } => ResolveFault::NotInGrimoire(name@),
            ResolveError::InvalidRequires { spell, entry, error } => ResolveFault::InvalidRequires(
                spell@,
                entry@,
                error@,
            ),
            ResolveError::Cycle { involving } => ResolveFault::Cycle(string_views(involving@)),
        }
    }
}

pub open spec fn step_views(steps: Seq<PlanStep>) -> Seq<Sv> {
    steps.map_values(|s: PlanStep| (s.requirement@, s.is_seed))
}

/// The gathered comparators of the spells `nv`, index for index.
pub open spec fn acc_of(nv: Seq<Seq<char>>, cons: Seq<Vec<Constraint>>) -> Acc {
    Map::new(|k: Seq<char>| nv.contains(k), |k: Seq<char>| constraint_views(cons[index_in(nv, k)]@))
}

fn copy_constraints(cs: &Vec<Constraint>) -> (r: Vec<Constraint>)
    ensures
        constraint_views(r@) == constraint_views(cs@),
{
    let mut out: Vec<Constraint> = Vec::new();
    let mut i: usize = 0;
    while i < cs.len()
        invariant
            i <= cs.len(),
            constraint_views(out@) == constraint_views(cs@).take(i as int),
        decreases cs.len() - i,
    {
        let c = Constraint { op: cs[i].op, version: cs[i].version.clone() };
        let ghost before = out@;
        out.push(c);
        proof {
            assert(constraint_views(out@) =~= constraint_views(before).push(c@));
            assert(constraint_views(cs@).take(i + 1) =~= constraint_views(cs@).take(i as int).push(
                cs@[i as int]@,
            ));
        }
        i = i + 1;
    }
    assert(constraint_views(cs@).take(i as int) =~= constraint_views(cs@));
    out
}

/// A copy of the requirement.
pub fn copy_requirement(r: &Requirement) -> (c: Requirement)
    ensures
        c@ == r@,
{
    Requirement { name: r.name.clone(), constraints: copy_constraints(&r.constraints) }
}

/// Whether one of the requirements names `name`.
fn names_any(reqs: &[Requirement], name: &str) -> (r: bool)
    ensures
        r == dep_names(requirement_views(reqs@)).contains(name@),
{
    let ghost dn = dep_names(requirement_views(reqs@));
    let mut i: usize = 0;
    while i < reqs.len()
        invariant
            dn == dep_names(requirement_views(reqs@)),
            dn.len() == reqs.len(),
            i <= reqs.len(),
            forall|j: int| 0 <= j < i ==> dn[j] != name@,
        decreases reqs.len() - i,
    {
        assert(dn[i as int] == reqs@[i as int].name@);
        if crate::text::str_eq(reqs[i].name.as_str(), name) {
            return true;
        }
        i = i + 1;
    }
    false
}

proof fn lemma_index_push(nv: Seq<Seq<char>>, x: Seq<char>, k: Seq<char>)
    requires
        nv.contains(k),
    ensures
        index_in(nv.push(x), k) == index_in(nv, k),
        nv.push(x).contains(k),
{
    lemma_index_in(nv, k);
    lemma_index_in(nv.push(x), k);
    let p = index_in(nv, k);
    assert(nv.push(x)[p] == k);
    if index_in(nv.push(x), k) < p {
        assert(nv[index_in(nv.push(x), k)] == k);
    }
}

/// The spells that expansion reached, in the order reached: names, gathered
/// comparators, required names and the spells themselves, index for index.
pub struct Expansion<'g> {
    pub names: Vec<String>,
    pub cons: Vec<Vec<Constraint>>,
    pub depn: Vec<Vec<String>>,
    pub spells: Vec<&'g Spell>,
}

/// What holds of an expansion of spells from `g`: index for index, every
/// name once, each spell the one of its name, every required name reached
/// or still queued in `pending`.
pub open spec fn expansion_ok(x: Expansion, g: Map<Seq<char>, SpellEntry>, pending: Seq<Seq<char>>) -> bool {
    let nv = string_views(x.names@);
    let dv = dep_views(x.depn@);
    &&& x.names.len() == x.cons.len()
    &&& x.names.len() == x.depn.len()
    &&& x.names.len() == x.spells.len()
    &&& nv.no_duplicates()
    &&& forall|i: int| 0 <= i < nv.len() ==> g.contains_key(#[trigger] nv[i]) && *x.spells@[i] == g[nv[i]].spell
    &&& forall|i: int, j: int|
        0 <= i < dv.len() && 0 <= j < dv[i].len() ==> nv.contains(#[trigger] dv[i][j]) || pending.contains(dv[i][j])
}

proof fn lemma_acc_dom(nv: Seq<Seq<char>>, cons: Seq<Vec<Constraint>>, g: Map<Seq<char>, SpellEntry>)
    requires
        nv.no_duplicates(),
        forall|i: int| 0 <= i < nv.len() ==> g.contains_key(#[trigger] nv[i]),
    ensures
        acc_of(nv, cons).dom() == nv.to_set(),
        acc_of(nv, cons).dom().subset_of(g.dom()),
        acc_of(nv, cons).dom().len() == nv.len(),
{
    assert(acc_of(nv, cons).dom() =~= nv.to_set());
    nv.unique_seq_to_set();
    assert forall|k: Seq<char>| acc_of(nv, cons).dom().contains(k) implies g.dom().contains(k) by {
        let i = choose|i: int| 0 <= i < nv.len() && nv[i] == k;
        assert(g.contains_key(nv[i]));
    }
}

/// Expand the seeds breadth-first through the spells' `requires` lists.
pub fn expand_all<'g>(grimoire: &'g Grimoire, seeds: &[Requirement]) -> (r: Result<Expansion<'g>, ResolveError>)
    requires
        expand_in_bounds(grimoire@, requirement_views(seeds@), Map::empty()),
    ensures
        match r {
            Ok(x) => {
                &&& expansion_ok(x, grimoire@, seq![])
                &&& expand(grimoire@, requirement_views(seeds@), Map::empty(), Map::empty()) == Ok::<
                    (Acc, Deps),
                    ResolveFault,
                >((acc_of(string_views(x.names@), x.cons@), vec_deps(string_views(x.names@), dep_views(x.depn@))))
            },
            Err(e) => expand(grimoire@, requirement_views(seeds@), Map::empty(), Map::empty())
                == Err::<(Acc, Deps), ResolveFault>(e@),
        },
{
    let ghost g = grimoire@;
    proof {
        lemma_grimoire_finite(grimoire);
    }
    let mut queue: Vec<Requirement> = Vec::new();
    let mut i: usize = 0;
    while i < seeds.len()
        invariant
            i <= seeds.len(),
            requirement_views(queue@) == requirement_views(seeds@).take(i as int),
        decreases seeds.len() - i,
    {
        let c = copy_requirement(&seeds[i]);
        let ghost before = queue@;
        queue.push(c);
        proof {
            assert(requirement_views(queue@) =~= requirement_views(before).push(c@));
            assert(requirement_views(seeds@).take(i + 1) =~= requirement_views(seeds@).take(
                i as int,
            ).push(seeds@[i as int]@));
        }
        i = i + 1;
    }
    proof {
        assert(requirement_views(seeds@).take(i as int) =~= requirement_views(seeds@));
    }
    let mut x = Expansion { names: Vec::new(), cons: Vec::new(), depn: Vec::new(), spells: Vec::new() };
    let mut head: usize = 0;
    proof {
        assert(requirement_views(queue@).skip(0) =~= requirement_views(queue@));
        assert(acc_of(string_views(x.names@), x.cons@) =~= Map::<Seq<char>, Seq<Cv>>::empty());
        assert(vec_deps(string_views(x.names@), dep_views(x.depn@)) =~= Map::<Seq<char>, Seq<Seq<char>>>::empty());
    }
    while head < queue.len()
        invariant
            g == grimoire@,
            g.dom().finite(),
            head <= queue.len(),
            expansion_ok(x, g, dep_names(requirement_views(queue@).skip(head as int))),
            expand(g, requirement_views(seeds@), Map::empty(), Map::empty()) == expand(
                g,
                requirement_views(queue@).skip(head as int),
                acc_of(string_views(x.names@), x.cons@),
                vec_deps(string_views(x.names@), dep_views(x.depn@)),
            ),
            expand_in_bounds(g, requirement_views(queue@).skip(head as int), acc_of(string_views(x.names@), x.cons@)),
        decreases g.dom().len() - x.names.len(), queue.len() - head,
    {
        let ghost nv = string_views(x.names@);
        let ghost dv = dep_views(x.depn@);
        let ghost acc = acc_of(nv, x.cons@);
        let ghost deps = vec_deps(nv, dv);
        let ghost q = requirement_views(queue@).skip(head as int);
        proof {
            lemma_acc_dom(nv, x.cons@, g);
            assert(q[0] == queue@[head as int]@);
            assert(q.drop_first() =~= requirement_views(queue@).skip(head + 1));
        }
        let name = queue[head].name.clone();
        let req_cons = copy_constraints(&queue[head].constraints);
        match position(&x.names, name.as_str()) {
            Some(i) => {
                let mut cs = copy_constraints(&x.cons[i]);
                let ghost old_cs = constraint_views(cs@);
                let mut j: usize = 0;
                while j < req_cons.len()
                    invariant
                        j <= req_cons.len(),
                        constraint_views(cs@) == old_cs + constraint_views(req_cons@).take(j as int),
                    decreases req_cons.len() - j,
                {
                    let c = Constraint { op: req_cons[j].op, version: req_cons[j].version.clone() };
                    let ghost before = cs@;
                    cs.push(c);
                    proof {
                        assert(constraint_views(cs@) =~= constraint_views(before).push(c@));
                        assert(constraint_views(req_cons@).take(j + 1) =~= constraint_views(
                            req_cons@,
                        ).take(j as int).push(req_cons@[j as int]@));
                    }
                    j = j + 1;
                }
                proof {
                    assert(constraint_views(req_cons@).take(j as int) =~= constraint_views(req_cons@));
                }
                let ghost old_cons = x.cons@;
                x.cons.set(i, cs);
                proof {
                    lemma_index_in(nv, name@);
                    assert(acc.contains_key(name@));
                    assert(acc_of(nv, x.cons@) =~= acc.insert(name@, acc[name@] + q[0].1)) by {
                        assert forall|k: Seq<char>| #[trigger] acc_of(nv, x.cons@).contains_key(k) implies acc_of(
                            nv,
                            x.cons@,
                        )[k] == acc.insert(name@, acc[name@] + q[0].1)[k] by {
                            lemma_index_in(nv, k);
                            if k != name@ {
                                assert(index_in(nv, k) != i);
                            }
                        }
                    }
                    assert(acc.insert(name@, acc[name@] + q[0].1).dom() =~= acc.dom());
                    let pend = dep_names(q);
                    let pend2 = dep_names(q.drop_first());
                    assert forall|a: int, b: int|
                        0 <= a < dv.len() && 0 <= b < dv[a].len() implies nv.contains(#[trigger] dv[a][b])
                        || pend2.contains(dv[a][b]) by {
                        if !nv.contains(dv[a][b]) {
                            let t = choose|t: int| 0 <= t < pend.len() && pend[t] == dv[a][b];
                            if t == 0 {
                                assert(nv[i as int] == name@);
                            } else {
                                assert(pend2[t - 1] == pend[t]);
                            }
                        }
                    }
                }
            },
            None => {
                match grimoire.get(name.as_str()) {
                    None => {
                        return Err(ResolveError::NotInGrimoire { name });
                    },
                    Some(entry) => {
                        proof {
                            assert(!acc.contains_key(name@));
                            assert(requires_of(g, name@) == entry_views(entry.spell.requires@));
                        }
                        match crate::constraint::parse_all(&entry.spell.requires) {
                            Err((j, e)) => {
                                proof {
                                    crate::spell::lemma_requirements_parse_index(
                                        entry_views(entry.spell.requires@),
                                    );
                                }
                                return Err(
                                    ResolveError::InvalidRequires {
                                        spell: name,
                                        entry: entry.spell.requires[j].clone(),
                                        error: e,
                                    },
                                );
                            },
                            Ok(rs) => {
                                let ghost rsv = requirement_views(rs@);
                                let mut dn: Vec<String> = Vec::new();
                                let mut k: usize = 0;
                                while k < rs.len()
                                    invariant
                                        k <= rs.len(),
                                        rsv == requirement_views(rs@),
                                        string_views(dn@) == dep_names(rsv).take(k as int),
                                    decreases rs.len() - k,
                                {
                                    let nm = rs[k].name.clone();
                                    let ghost before = dn@;
                                    dn.push(nm);
                                    proof {
                                        assert(string_views(dn@) =~= string_views(before).push(nm@));
                                        assert(dep_names(rsv).take(k + 1) =~= dep_names(rsv).take(
                                            k as int,
                                        ).push(rsv[k as int].0));
                                    }
                                    k = k + 1;
                                }
                                proof {
                                    assert(dep_names(rsv).take(k as int) =~= dep_names(rsv));
                                }
                                let ghost old_queue = requirement_views(queue@);
                                let mut k: usize = 0;
                                while k < rs.len()
                                    invariant
                                        k <= rs.len(),
                                        rsv == requirement_views(rs@),
                                        requirement_views(queue@) == old_queue + rsv.take(k as int),
                                    decreases rs.len() - k,
                                {
                                    let c = copy_requirement(&rs[k]);
                                    let ghost before = queue@;
                                    queue.push(c);
                                    proof {
                                        assert(requirement_views(queue@) =~= requirement_views(before).push(c@));
                                        assert(rsv.take(k + 1) =~= rsv.take(k as int).push(rsv[k as int]));
                                    }
                                    k = k + 1;
                                }
                                proof {
                                    assert(rsv.take(k as int) =~= rsv);
                                    assert(requirement_views(queue@).skip(head + 1) =~= q.drop_first() + rsv);
                                }
                                let ghost old_cons = x.cons@;
                                let ghost old_depn = x.depn@;
                                x.names.push(name);
                                x.cons.push(req_cons);
                                x.depn.push(dn);
                                x.spells.push(&entry.spell);
                                proof {
                                    let nv2 = string_views(x.names@);
                                    let dv2 = dep_views(x.depn@);
                                    assert(nv2 =~= nv.push(name@));
                                    assert(dv2 =~= dv.push(dep_names(rsv)));
                                    lemma_acc_grows(g, acc, name@, q[0].1);
                                    assert(nv2.no_duplicates()) by {
                                        crate::topo::lemma_push_no_dup(nv, name@);
                                    }
                                    assert(acc_of(nv2, x.cons@) =~= acc.insert(name@, q[0].1)) by {
                                        assert forall|k: Seq<char>| #[trigger] acc_of(nv2, x.cons@).contains_key(k)
                                            <==> acc.insert(name@, q[0].1).contains_key(k) by {
                                            crate::topo::lemma_contains_push(nv, name@, k);
                                        }
                                        assert forall|k: Seq<char>| #[trigger] acc_of(nv2, x.cons@).contains_key(k)
                                            implies acc_of(nv2, x.cons@)[k] == acc.insert(name@, q[0].1)[k] by {
                                            crate::topo::lemma_contains_push(nv, name@, k);
                                            if k == name@ {
                                                lemma_index_in_unique(nv2, nv.len() as int);
                                            } else {
                                                lemma_index_push(nv, name@, k);
                                                lemma_index_in(nv, k);
                                                assert(x.cons@[index_in(nv, k)] == old_cons[index_in(nv, k)]);
                                            }
                                        }
                                    }
                                    assert(vec_deps(nv2, dv2) =~= deps.insert(name@, dep_names(rsv))) by {
                                        assert forall|k: Seq<char>| #[trigger] vec_deps(nv2, dv2).contains_key(k)
                                            <==> deps.insert(name@, dep_names(rsv)).contains_key(k) by {
                                            crate::topo::lemma_contains_push(nv, name@, k);
                                        }
                                        assert forall|k: Seq<char>| #[trigger] vec_deps(nv2, dv2).contains_key(k)
                                            implies vec_deps(nv2, dv2)[k] == deps.insert(name@, dep_names(rsv))[k] by {
                                            crate::topo::lemma_contains_push(nv, name@, k);
                                            if k == name@ {
                                                lemma_index_in_unique(nv2, nv.len() as int);
                                            } else {
                                                lemma_index_push(nv, name@, k);
                                                lemma_index_in(nv, k);
                                            }
                                        }
                                    }
                                    let pend = dep_names(q);
                                    let pend2 = dep_names(q.drop_first() + rsv);
                                    assert(pend2 =~= dep_names(q.drop_first()) + dep_names(rsv));
                                    assert forall|a: int, b: int|
                                        0 <= a < dv2.len() && 0 <= b < dv2[a].len() implies nv2.contains(
                                        #[trigger] dv2[a][b],
                                    ) || pend2.contains(dv2[a][b]) by {
                                        crate::topo::lemma_contains_push(nv, name@, dv2[a][b]);
                                        if a == nv.len() {
                                            assert(pend2[dep_names(q.drop_first()).len() + b] == dv2[a][b]);
                                        } else if !nv.contains(dv[a][b]) {
                                            assert(dv2[a] == dv[a]);
                                            let t = choose|t: int| 0 <= t < pend.len() && pend[t] == dv[a][b];
                                            if t > 0 {
                                                assert(pend2[t - 1] == pend[t]);
                                            }
                                        } else {
                                            assert(dv2[a] == dv[a]);
                                        }
                                    }
                                    assert forall|a: int| 0 <= a < nv2.len() implies g.contains_key(#[trigger] nv2[a])
                                        && *x.spells@[a] == g[nv2[a]].spell by {
                                        if a < nv.len() {
                                            assert(nv2[a] == nv[a]);
                                        }
                                    }
                                    lemma_acc_dom(nv2, x.cons@, g);
                                }
                            },
                        }
                    },
                }
            },
        }
        head = head + 1;
    }
    proof {
        assert(requirement_views(queue@).skip(head as int) =~= Seq::<Rv>::empty());
        assert(dep_names(Seq::<Rv>::empty()) =~= Seq::<Seq<char>>::empty());
    }
    Ok(x)
}

/// The step that resolving gives for the spell named `n`.
pub open spec fn step_of(acc: Acc, seeds: Seq<Rv>, n: Seq<char>) -> Sv {
    ((n, acc[n]), dep_names(seeds).contains(n))
}

/// An expansion reordered so that its names ascend.
pub struct Sorted<'g> {
    pub names: Vec<String>,
    pub deps: Vec<Vec<String>>,
    pub cons: Vec<Vec<Constraint>>,
    pub spells: Vec<&'g Spell>,
}

/// Reorder the expansion `x` by ascending name.
fn sort_expansion<'g>(x: &Expansion<'g>, Ghost(g): Ghost<Map<Seq<char>, SpellEntry>>) -> (r: Sorted<'g>)
    requires
        expansion_ok(*x, g, seq![]),
    ensures
        r.names.len() == x.names.len(),
        r.deps.len() == x.names.len(),
        r.cons.len() == x.names.len(),
        r.spells.len() == x.names.len(),
        ascending_names(acc_of(string_views(x.names@), x.cons@).dom()) == string_views(r.names@),
        vec_deps(string_views(r.names@), dep_views(r.deps@)) == vec_deps(
            string_views(x.names@),
            dep_views(x.depn@),
        ),
        graph_ok(string_views(r.names@), vec_deps(string_views(x.names@), dep_views(x.depn@))),
        forall|a: int|
            0 <= a < x.names.len() ==> #[trigger] constraint_views(r.cons@[a]@) == acc_of(
                string_views(x.names@),
                x.cons@,
            )[string_views(r.names@)[a]],
        forall|a: int|
            0 <= a < x.names.len() ==> #[trigger] g.contains_key(string_views(r.names@)[a])
                && *r.spells@[a] == g[string_views(r.names@)[a]].spell,
        forall|a: int|
            0 <= a < x.names.len() ==> #[trigger] acc_of(string_views(x.names@), x.cons@).contains_key(
                string_views(r.names@)[a],
            ),
{
    let ghost nv = string_views(x.names@);
    let ghost dv = dep_views(x.depn@);
    let ghost acc = acc_of(nv, x.cons@);
    let ghost deps = vec_deps(nv, dv);
    let n = x.names.len();
    let perm = ascending_indices(&x.names);
    let ghost pn = idx_names(nv, perm@);
    let mut snames: Vec<String> = Vec::new();
    let mut sdeps: Vec<Vec<String>> = Vec::new();
    let mut scons: Vec<Vec<Constraint>> = Vec::new();
    let mut sspells: Vec<&'g Spell> = Vec::new();
    let mut k: usize = 0;
    while k < n
        invariant
            n == x.names.len(),
            expansion_ok(*x, g, seq![]),
            perm.len() == n,
            forall|i: int| 0 <= i < n ==> perm@[i] < n,
            pn == idx_names(nv, perm@),
            nv == string_views(x.names@),
            dv == dep_views(x.depn@),
            k <= n,
            snames.len() == k,
            sdeps.len() == k,
            scons.len() == k,
            sspells.len() == k,
            string_views(snames@) == pn.take(k as int),
            forall|j: int| 0 <= j < k ==> #[trigger] dep_views(sdeps@)[j] == dv[perm@[j] as int],
            forall|j: int| 0 <= j < k ==> #[trigger] constraint_views(scons@[j]@) == constraint_views(x.cons@[perm@[j] as int]@),
            forall|j: int| 0 <= j < k ==> #[trigger] sspells@[j] == x.spells@[perm@[j] as int],
        decreases n - k,
    {
        let p = perm[k];
        let nm = x.names[p].clone();
        let ds = copy_strings(&x.depn[p]);
        let cs = copy_constraints(&x.cons[p]);
        let ghost (b1, b2, b3, b4) = (snames@, sdeps@, scons@, sspells@);
        snames.push(nm);
        sdeps.push(ds);
        scons.push(cs);
        sspells.push(x.spells[p]);
        proof {
            assert(string_views(snames@) =~= string_views(b1).push(nm@));
            assert(pn.take(k + 1) =~= pn.take(k as int).push(pn[k as int]));
            assert(pn[k as int] == nv[p as int]);
            assert forall|j: int| 0 <= j < k + 1 implies #[trigger] dep_views(sdeps@)[j] == dv[perm@[j] as int] by {
                if j < k {
                    assert(sdeps@[j] == b2[j]);
                    assert(dep_views(b2)[j] == dv[perm@[j] as int]);
                }
            }
            assert forall|j: int| 0 <= j < k + 1 implies #[trigger] constraint_views(scons@[j]@) == constraint_views(x.cons@[perm@[j] as int]@) by {
                if j < k {
                    assert(scons@[j] == b3[j]);
                }
            }
        }
        k = k + 1;
    }
    let ghost nodes = string_views(snames@);
    proof {
        assert(pn.take(n as int) =~= pn);
        assert(nodes == pn);
        lemma_acc_dom(nv, x.cons@, g);
        lemma_ascending_no_dup(nodes);
        assert(ascending(nodes) && nodes.to_set() == acc.dom());
        let q = ascending_names(acc.dom());
        assert(ascending(q) && q.to_set() == acc.dom());
        lemma_ascending_unique(q, nodes);
        assert forall|j: int| 0 <= j < n implies index_in(nv, #[trigger] nodes[j]) == perm@[j] as int by {
            assert(pn[j] == nv[perm@[j] as int]);
            lemma_index_in_unique(nv, perm@[j] as int);
        }
        assert(vec_deps(nodes, dep_views(sdeps@)) =~= deps) by {
            assert forall|c: Seq<char>| #[trigger] vec_deps(nodes, dep_views(sdeps@)).contains_key(c)
                <==> deps.contains_key(c) by {
                assert(nodes.to_set().contains(c) == nv.to_set().contains(c));
            }
            assert forall|c: Seq<char>| #[trigger] vec_deps(nodes, dep_views(sdeps@)).contains_key(c)
                implies vec_deps(nodes, dep_views(sdeps@))[c] == deps[c] by {
                lemma_index_in(nodes, c);
                let j = index_in(nodes, c);
                assert(index_in(nv, nodes[j]) == perm@[j] as int);
            }
        }
        assert(graph_ok(nodes, deps)) by {
            assert forall|c: Seq<char>, j: int|
                nodes.contains(c) && 0 <= j < deps[c].len() implies nodes.contains(#[trigger] deps[c][j]) by {
                assert(nodes.to_set().contains(c));
                assert(nv.to_set().contains(c));
                lemma_index_in(nv, c);
                let i = index_in(nv, c);
                assert(deps[c] == dv[i]);
                assert(nv.contains(dv[i][j]));
                assert(nv.to_set().contains(dv[i][j]));
                assert(nodes.to_set().contains(dv[i][j]));
            }
        }
        assert forall|a: int| 0 <= a < n implies #[trigger] constraint_views(scons@[a]@) == acc[nodes[a]] by {
            assert(pn[a] == nv[perm@[a] as int]);
            assert(nv.contains(nodes[a]));
        }
        assert forall|a: int| 0 <= a < n implies #[trigger] g.contains_key(nodes[a]) && *sspells@[a] == g[nodes[a]].spell by {
            assert(pn[a] == nv[perm@[a] as int]);
        }
        assert forall|a: int| 0 <= a < n implies #[trigger] acc.contains_key(nodes[a]) by {
            assert(pn[a] == nv[perm@[a] as int]);
            assert(nv.contains(nodes[a]));
        }
    }
    Sorted { names: snames, deps: sdeps, cons: scons, spells: sspells }
}

/// The names of `names` at indices that `order` does not hold, in order.
fn unplaced_names(names: &Vec<String>, order: &Vec<usize>) -> (r: Vec<String>)
    requires
        string_views(names@).no_duplicates(),
        forall|a: int| 0 <= a < order.len() ==> order@[a] < names.len(),
    ensures
        string_views(r@) == unplaced(string_views(names@), idx_names(string_views(names@), order@)),
{
    let ghost nodes = string_views(names@);
    let ghost ord = idx_names(nodes, order@);
    let n = names.len();
    let mut placed: Vec<bool> = Vec::new();
    let mut i: usize = 0;
    while i < n
        invariant
            i <= n,
            placed.len() == i,
            forall|j: int| 0 <= j < i ==> !placed@[j],
        decreases n - i,
    {
        placed.push(false);
        i = i + 1;
    }
    let mut j: usize = 0;
    while j < order.len()
        invariant
            n == names.len(),
            placed.len() == n,
            j <= order.len(),
            forall|a: int| 0 <= a < order.len() ==> order@[a] < n,
            forall|c: int| 0 <= c < n ==> placed@[c] == exists|a: int| 0 <= a < j && order@[a] == c,
        decreases order.len() - j,
    {
        let o = order[j];
        placed.set(o, true);
        proof {
            assert forall|c: int| 0 <= c < n implies placed@[c] == exists|a: int| 0 <= a < j + 1 && order@[a] == c by {
                if c == o {
                    assert(order@[j as int] == c);
                }
            }
        }
        j = j + 1;
    }
    let mut involving: Vec<String> = Vec::new();
    let mut i: usize = 0;
    while i < n
        invariant
            n == names.len(),
            nodes == string_views(names@),
            nodes.no_duplicates(),
            ord == idx_names(nodes, order@),
            placed.len() == n,
            forall|a: int| 0 <= a < order.len() ==> order@[a] < n,
            forall|c: int| 0 <= c < n ==> placed@[c] == exists|a: int| 0 <= a < order.len() && order@[a] == c,
            i <= n,
            string_views(involving@) == unplaced(nodes.take(i as int), ord),
        decreases n - i,
    {
        proof {
            assert(nodes.take(i + 1).drop_last() =~= nodes.take(i as int));
            assert(nodes.take(i + 1).last() == nodes[i as int]);
            if ord.contains(nodes[i as int]) {
                let a = choose|a: int| 0 <= a < ord.len() && ord[a] == nodes[i as int];
                assert(nodes[order@[a] as int] == nodes[i as int]);
                assert(order@[a] == i);
            }
            if placed@[i as int] {
                let a = choose|a: int| 0 <= a < order.len() && order@[a] == i;
                assert(ord[a] == nodes[i as int]);
            }
        }
        if !placed[i] {
            let nm = names[i].clone();
            let ghost before = involving@;
            involving.push(nm);
            proof {
                assert(string_views(involving@) =~= string_views(before).push(nm@));
            }
        }
        i = i + 1;
    }
    proof {
        assert(nodes.take(n as int) =~= nodes);
    }
    involving
}

/// The plan steps for the sorted spells, in the order `order` gives.
fn build_steps<'g>(
    s: &Sorted<'g>,
    order: &Vec<usize>,
    seeds: &[Requirement],
    Ghost(acc): Ghost<Acc>,
    Ghost(g): Ghost<Map<Seq<char>, SpellEntry>>,
) -> (r: Vec<PlanStep<'g>>)
    requires
        s.names.len() == s.cons.len(),
        s.names.len() == s.spells.len(),
        forall|a: int| 0 <= a < order.len() ==> order@[a] < s.names.len(),
        forall|a: int|
            0 <= a < s.names.len() ==> #[trigger] constraint_views(s.cons@[a]@) == acc[string_views(s.names@)[a]],
        forall|a: int|
            0 <= a < s.names.len() ==> #[trigger] g.contains_key(string_views(s.names@)[a])
                && *s.spells@[a] == g[string_views(s.names@)[a]].spell,
    ensures
        step_views(r@) == idx_names(string_views(s.names@), order@).map_values(
            |m: Seq<char>| ((m, acc[m]), dep_names(requirement_views(seeds@)).contains(m)),
        ),
        forall|i: int|
            0 <= i < r.len() ==> #[trigger] g.contains_key(r@[i].requirement.name@)
                && *r@[i].spell == g[r@[i].requirement.name@].spell,
{
    let ghost nodes = string_views(s.names@);
    let ghost ord = idx_names(nodes, order@);
    let ghost sv = requirement_views(seeds@);
    let mut steps: Vec<PlanStep<'g>> = Vec::new();
    let mut j: usize = 0;
    while j < order.len()
        invariant
            s.names.len() == s.cons.len(),
            s.names.len() == s.spells.len(),
            nodes == string_views(s.names@),
            ord == idx_names(nodes, order@),
            sv == requirement_views(seeds@),
            forall|a: int| 0 <= a < order.len() ==> order@[a] < s.names.len(),
            forall|a: int|
                0 <= a < s.names.len() ==> #[trigger] constraint_views(s.cons@[a]@) == acc[nodes[a]],
            forall|a: int|
                0 <= a < s.names.len() ==> #[trigger] g.contains_key(nodes[a]) && *s.spells@[a] == g[nodes[a]].spell,
            j <= order.len(),
            step_views(steps@) == ord.take(j as int).map_values(|m: Seq<char>| step_of(acc, sv, m)),
            forall|i: int|
                0 <= i < steps.len() ==> #[trigger] g.contains_key(steps@[i].requirement.name@)
                    && *steps@[i].spell == g[steps@[i].requirement.name@].spell,
        decreases order.len() - j,
    {
        let p = order[j];
        let nm = s.names[p].clone();
        let seed = names_any(seeds, nm.as_str());
        let req = Requirement { name: nm, constraints: copy_constraints(&s.cons[p]) };
        let step = PlanStep { spell: s.spells[p], requirement: req, is_seed: seed };
        proof {
            let c = nodes[p as int];
            assert(nm@ == c);
            assert(constraint_views(s.cons@[p as int]@) == acc[c]);
            assert(req@ == (c, acc[c]));
            assert(ord[j as int] == c);
        }
        let ghost before = steps@;
        steps.push(step);
        proof {
            assert(step_views(steps@) =~= step_views(before).push((req@, seed)));
            assert(ord.take(j + 1) =~= ord.take(j as int).push(ord[j as int]));
            assert(ord.take(j + 1).map_values(|m: Seq<char>| step_of(acc, sv, m)) =~= ord.take(
                j as int,
            ).map_values(|m: Seq<char>| step_of(acc, sv, m)).push(step_of(acc, sv, ord[j as int])));
            assert forall|i: int|
                0 <= i < steps.len() implies #[trigger] g.contains_key(steps@[i].requirement.name@)
                    && *steps@[i].spell == g[steps@[i].requirement.name@].spell by {
                if i < before.len() {
                    assert(steps@[i] == before[i]);
                }
            }
        }
        j = j + 1;
    }
    proof {
        assert(ord.take(j as int) =~= ord);
        assert(ord.map_values(|m: Seq<char>| step_of(acc, sv, m)) =~= ord.map_values(
            |m: Seq<char>| ((m, acc[m]), dep_names(sv).contains(m)),
        ));
    }
    steps
}

/// Resolve a list of seed requirements into a topologically-sorted plan.
///
/// Errors:
/// - A referenced spell is not in the grimoire.
/// - A `requires:` entry fails to parse.
/// - The dependency graph contains a cycle.
#[verifier::spinoff_prover]
pub fn resolve<'g>(grimoire: &'g Grimoire, seeds: &[Requirement]) -> (r: Result<ResolvedPlan<'g>, ResolveError>)
    requires
        expand_in_bounds(grimoire@, requirement_views(seeds@), Map::empty()),
    ensures
        match r {
            Ok(plan) => {
                &&& resolution(grimoire@, requirement_views(seeds@)) == Ok::<Seq<Sv>, ResolveFault>(
                    step_views(plan.steps@),
                )
                &&& forall|i: int|
                    0 <= i < plan.steps.len() ==> #[trigger] grimoire@.contains_key(plan.steps@[i].requirement.name@)
                        && *plan.steps@[i].spell == grimoire@[plan.steps@[i].requirement.name@].spell
            },
            Err(e) => resolution(grimoire@, requirement_views(seeds@)) == Err::<Seq<Sv>, ResolveFault>(e@),
        },
{
    let x = match expand_all(grimoire, seeds) {
        Ok(x) => x,
        Err(e) => {
            return Err(e);
        },
    };
    let ghost g = grimoire@;
    let ghost acc = acc_of(string_views(x.names@), x.cons@);
    let ghost deps = vec_deps(string_views(x.names@), dep_views(x.depn@));
    let n = x.names.len();
    let s = sort_expansion(&x, Ghost(g));
    let ghost nodes = string_views(s.names@);
    let order = topo_sort(&s.names, &s.deps);
    let ghost ord = idx_names(nodes, order@);
    let ghost sv = requirement_views(seeds@);
    proof {
        assert(expand(g, sv, Map::empty(), Map::empty()) == Ok::<(Acc, Deps), ResolveFault>((acc, deps)));
        assert(ascending_names(acc.dom()) == nodes);
    }
    if order.len() < n {
        let involving = unplaced_names(&s.names, &order);
        proof {
            assert(resolution(g, sv) == Err::<Seq<Sv>, ResolveFault>(ResolveFault::Cycle(unplaced(nodes, ord))));
        }
        return Err(ResolveError::Cycle { involving });
    }
    let steps = build_steps(&s, &order, seeds, Ghost(acc), Ghost(g));
    proof {
        assert(resolution(g, sv) == Ok::<Seq<Sv>, ResolveFault>(ord.map_values(
            |m: Seq<char>| ((m, acc[m]), dep_names(sv).contains(m)),
        )));
    }
    Ok(ResolvedPlan { steps })
}

/// What holds of every state that expansion passes through: each spell
/// reached has a parsed `requires` list and its required names recorded, and
/// each required name is reached or still queued.
pub open spec fn expand_inv(g: Map<Seq<char>, SpellEntry>, queue: Seq<Rv>, acc: Acc, deps: Deps) -> bool {
    &&& acc.dom() == deps.dom()
    &&& acc.dom().subset_of(g.dom())
    &&& forall|n: Seq<char>|
        #[trigger] acc.contains_key(n) ==> requirements_parse(requires_of(g, n)) is Ok && deps[n]
            == dep_names(requirements_parse(requires_of(g, n))->Ok_0)
    &&& forall|n: Seq<char>, j: int|
        acc.contains_key(n) && 0 <= j < deps[n].len() ==> acc.contains_key(#[trigger] deps[n][j])
            || dep_names(queue).contains(deps[n][j])
}

/// Expansion keeps what it has gathered, reaches every queued name, keeps
/// every queued comparator, and ends with every required name reached.
pub proof fn lemma_expand_props(g: Map<Seq<char>, SpellEntry>, queue: Seq<Rv>, acc: Acc, deps: Deps)
    requires
        g.dom().finite(),
        expand_inv(g, queue, acc, deps),
        expand(g, queue, acc, deps) is Ok,
    ensures
        ({
            let (a2, d2) = expand(g, queue, acc, deps)->Ok_0;
            &&& expand_inv(g, seq![], a2, d2)
            &&& forall|n: Seq<char>| #[trigger] acc.contains_key(n) ==> a2.contains_key(n)
                && forall|c: Cv| acc[n].contains(c) ==> #[trigger] a2[n].contains(c)
            &&& forall|i: int|
                0 <= i < queue.len() ==> a2.contains_key(#[trigger] queue[i].0)
                    && forall|c: Cv| queue[i].1.contains(c) ==> #[trigger] a2[queue[i].0].contains(c)
        }),
    decreases g.dom().len() - acc.dom().len(), queue.len(),
{
    if queue.len() == 0 {
        assert(dep_names(queue) =~= Seq::<Seq<char>>::empty());
    } else {
        let name = queue[0].0;
        let cs = queue[0].1;
        let rest = queue.drop_first();
        if acc.contains_key(name) {
            let acc2 = acc.insert(name, acc[name] + cs);
            assert(acc2.dom() =~= acc.dom());
            assert(expand_inv(g, rest, acc2, deps)) by {
                assert forall|n: Seq<char>, j: int|
                    acc2.contains_key(n) && 0 <= j < deps[n].len() implies acc2.contains_key(
                    #[trigger] deps[n][j],
                ) || dep_names(rest).contains(deps[n][j]) by {
                    if !acc.contains_key(deps[n][j]) {
                        let t = choose|t: int| 0 <= t < dep_names(queue).len() && dep_names(queue)[t] == deps[n][j];
                        if t > 0 {
                            assert(dep_names(rest)[t - 1] == dep_names(queue)[t]);
                        }
                    }
                }
            }
            lemma_expand_props(g, rest, acc2, deps);
            let (a2, d2) = expand(g, queue, acc, deps)->Ok_0;
            assert forall|n: Seq<char>| #[trigger] acc.contains_key(n) implies a2.contains_key(n)
                && forall|c: Cv| acc[n].contains(c) ==> #[trigger] a2[n].contains(c) by {
                assert(acc2.contains_key(n));
                assert forall|c: Cv| acc[n].contains(c) implies #[trigger] a2[n].contains(c) by {
                    if n == name {
                        let t = choose|t: int| 0 <= t < acc[n].len() && acc[n][t] == c;
                        assert((acc[name] + cs)[t] == c);
                        assert(acc2[n].contains(c));
                    } else {
                        assert(acc2[n] == acc[n]);
                    }
                }
            }
            assert forall|i: int| 0 <= i < queue.len() implies a2.contains_key(#[trigger] queue[i].0)
                && forall|c: Cv| queue[i].1.contains(c) ==> #[trigger] a2[queue[i].0].contains(c) by {
                if i == 0 {
                    assert(acc2.contains_key(name));
                    assert forall|c: Cv| queue[0].1.contains(c) implies #[trigger] a2[name].contains(c) by {
                        let t = choose|t: int| 0 <= t < cs.len() && cs[t] == c;
                        assert((acc[name] + cs)[acc[name].len() + t] == c);
                        assert(acc2[name].contains(c));
                    }
                } else {
                    assert(rest[i - 1] == queue[i]);
                }
            }
        } else {
            let rs = requirements_parse(requires_of(g, name))->Ok_0;
            let acc2 = acc.insert(name, cs);
            let deps2 = deps.insert(name, dep_names(rs));
            let q2 = rest + rs;
            lemma_acc_grows(g, acc, name, cs);
            assert(dep_names(q2) =~= dep_names(rest) + dep_names(rs));
            assert(expand_inv(g, q2, acc2, deps2)) by {
                assert(acc2.dom() =~= deps2.dom());
                assert forall|n: Seq<char>| #[trigger] acc2.contains_key(n) implies requirements_parse(
                    requires_of(g, n),
                ) is Ok && deps2[n] == dep_names(requirements_parse(requires_of(g, n))->Ok_0) by {
                    if n != name {
                        assert(acc.contains_key(n));
                    }
                }
                assert forall|n: Seq<char>, j: int|
                    acc2.contains_key(n) && 0 <= j < deps2[n].len() implies acc2.contains_key(
                    #[trigger] deps2[n][j],
                ) || dep_names(q2).contains(deps2[n][j]) by {
                    if n == name {
                        assert(dep_names(q2)[dep_names(rest).len() + j] == deps2[n][j]);
                    } else {
                        assert(acc.contains_key(n));
                        assert(deps2[n] == deps[n]);
                        if !acc.contains_key(deps[n][j]) {
                            let t = choose|t: int| 0 <= t < dep_names(queue).len() && dep_names(queue)[t] == deps[n][j];
                            if t > 0 {
                                assert(dep_names(q2)[t - 1] == dep_names(queue)[t]);
                            }
                        }
                    }
                }
            }
            lemma_expand_props(g, q2, acc2, deps2);
            let (a2, d2) = expand(g, queue, acc, deps)->Ok_0;
            assert forall|n: Seq<char>| #[trigger] acc.contains_key(n) implies a2.contains_key(n)
                && forall|c: Cv| acc[n].contains(c) ==> #[trigger] a2[n].contains(c) by {
                assert(acc2.contains_key(n));
                assert(acc2[n] == acc[n]);
            }
            assert forall|i: int| 0 <= i < queue.len() implies a2.contains_key(#[trigger] queue[i].0)
                && forall|c: Cv| queue[i].1.contains(c) ==> #[trigger] a2[queue[i].0].contains(c) by {
                if i == 0 {
                    assert(acc2.contains_key(name));
                    assert(acc2[name] == cs);
                } else {
                    assert(q2[i - 1] == queue[i]);
                }
            }
        }
    }
}

/// The graph that a successful expansion from `seeds` builds: its names in
/// ascending order hold each reached spell once, and every recorded
/// dependency is a reached spell.
proof fn lemma_expanded_graph(g: Map<Seq<char>, SpellEntry>, seeds: Seq<Rv>)
    requires
        g.dom().finite(),
        expand(g, seeds, Map::empty(), Map::empty()) is Ok,
    ensures
        ({
            let (acc, deps) = expand(g, seeds, Map::empty(), Map::empty())->Ok_0;
            let nodes = ascending_names(acc.dom());
            &&& expand_inv(g, seq![], acc, deps)
            &&& nodes.to_set() == acc.dom()
            &&& graph_ok(nodes, deps)
            &&& forall|i: int|
                0 <= i < seeds.len() ==> acc.contains_key(#[trigger] seeds[i].0)
                    && forall|c: Cv| seeds[i].1.contains(c) ==> #[trigger] acc[seeds[i].0].contains(c)
        }),
{
    let empty_a = Map::<Seq<char>, Seq<Cv>>::empty();
    let empty_d = Map::<Seq<char>, Seq<Seq<char>>>::empty();
    assert(expand_inv(g, seeds, empty_a, empty_d)) by {
        assert(empty_a.dom() =~= empty_d.dom());
    }
    lemma_expand_props(g, seeds, empty_a, empty_d);
    let (acc, deps) = expand(g, seeds, empty_a, empty_d)->Ok_0;
    assert(acc.dom().finite()) by {
        vstd::set_lib::lemma_len_subset(acc.dom(), g.dom());
    }
    let wit = lemma_ascending_exists(acc.dom());
    let nodes = ascending_names(acc.dom());
    lemma_ascending_no_dup(nodes);
    assert(dep_names(Seq::<Rv>::empty()) =~= Seq::<Seq<char>>::empty());
    assert forall|c: Seq<char>, j: int|
        nodes.contains(c) && 0 <= j < deps[c].len() implies nodes.contains(#[trigger] deps[c][j]) by {
        assert(nodes.to_set().contains(c));
        assert(acc.contains_key(deps[c][j]));
        assert(nodes.to_set().contains(deps[c][j]));
    }
}

/// The names of a plan's steps, in order.
pub open spec fn plan_names(steps: Seq<Sv>) -> Seq<Seq<char>> {
    steps.map_values(|s: Sv| s.0.0)
}

/// A successful resolution is the topological order of the expanded graph,
/// step for step.
proof fn lemma_resolution_steps(g: Map<Seq<char>, SpellEntry>, seeds: Seq<Rv>)
    requires
        g.dom().finite(),
        resolution(g, seeds) is Ok,
    ensures
        ({
            let (acc, deps) = expand(g, seeds, Map::empty(), Map::empty())->Ok_0;
            let nodes = ascending_names(acc.dom());
            let order = topo_order(nodes, deps);
            let steps = resolution(g, seeds)->Ok_0;
            &&& steps.len() == order.len()
            &&& plan_names(steps) == order
            &&& forall|k: int| 0 <= k < steps.len() ==> #[trigger] steps[k] == step_of(acc, seeds, order[k])
        }),
{
    let (acc, deps) = expand(g, seeds, Map::empty(), Map::empty())->Ok_0;
    let nodes = ascending_names(acc.dom());
    let order = topo_order(nodes, deps);
    let steps = resolution(g, seeds)->Ok_0;
    assert(steps == order.map_values(|n: Seq<char>| ((n, acc[n]), dep_names(seeds).contains(n))));
    assert(plan_names(steps) =~= order);
}

/// A resolved plan names each spell once.
pub proof fn lemma_plan_distinct(g: Map<Seq<char>, SpellEntry>, seeds: Seq<Rv>)
    requires
        g.dom().finite(),
        resolution(g, seeds) is Ok,
    ensures
        plan_names(resolution(g, seeds)->Ok_0).no_duplicates(),
{
    lemma_expanded_graph(g, seeds);
    lemma_resolution_steps(g, seeds);
    let (acc, deps) = expand(g, seeds, Map::empty(), Map::empty())->Ok_0;
    lemma_topo_order(ascending_names(acc.dom()), deps);
}

/// A resolved plan lists every seed, marked as one, with all of its
/// comparators.
pub proof fn lemma_plan_seeds(g: Map<Seq<char>, SpellEntry>, seeds: Seq<Rv>)
    requires
        g.dom().finite(),
        resolution(g, seeds) is Ok,
    ensures
        ({
            let steps = resolution(g, seeds)->Ok_0;
            &&& forall|i: int| 0 <= i < seeds.len() ==> plan_names(steps).contains(#[trigger] seeds[i].0)
            &&& forall|i: int, k: int|
                0 <= i < seeds.len() && 0 <= k < steps.len() && #[trigger] steps[k].0.0 == #[trigger] seeds[i].0
                    ==> steps[k].1 && forall|c: Cv| seeds[i].1.contains(c) ==> #[trigger] steps[k].0.1.contains(c)
        }),
{
    lemma_expanded_graph(g, seeds);
    lemma_resolution_steps(g, seeds);
    let (acc, deps) = expand(g, seeds, Map::empty(), Map::empty())->Ok_0;
    let nodes = ascending_names(acc.dom());
    lemma_topo_order(nodes, deps);
    let order = topo_order(nodes, deps);
    crate::topo::lemma_sub_len(order, nodes);
    let steps = resolution(g, seeds)->Ok_0;
    assert forall|i: int| 0 <= i < seeds.len() implies plan_names(steps).contains(#[trigger] seeds[i].0) by {
        let n = seeds[i].0;
        assert(acc.contains_key(n));
        assert(nodes.to_set().contains(n));
        assert(nodes.contains(n));
    }
    assert forall|i: int, k: int|
        0 <= i < seeds.len() && 0 <= k < steps.len() && #[trigger] steps[k].0.0 == #[trigger] seeds[i].0
            implies steps[k].1 && forall|c: Cv| seeds[i].1.contains(c) ==> #[trigger] steps[k].0.1.contains(c) by {
        assert(steps[k] == step_of(acc, seeds, order[k]));
        assert(dep_names(seeds)[i] == seeds[i].0);
    }
}

/// The names that the `requires` entries of the spell named `n` require.
pub open spec fn required_names(g: Map<Seq<char>, SpellEntry>, n: Seq<char>) -> Seq<Seq<char>> {
    dep_names(requirements_parse(requires_of(g, n))->Ok_0)
}

/// A resolved plan places every spell after all the spells it requires.
pub proof fn lemma_plan_order(g: Map<Seq<char>, SpellEntry>, seeds: Seq<Rv>)
    requires
        g.dom().finite(),
        resolution(g, seeds) is Ok,
    ensures
        ({
            let steps = resolution(g, seeds)->Ok_0;
            let names = plan_names(steps);
            forall|i: int, j: int|
                0 <= i < steps.len() && 0 <= j < required_names(g, names[i]).len() ==> names.take(
                    i,
                ).contains(#[trigger] required_names(g, names[i])[j])
        }),
{
    lemma_expanded_graph(g, seeds);
    lemma_resolution_steps(g, seeds);
    let (acc, deps) = expand(g, seeds, Map::empty(), Map::empty())->Ok_0;
    let nodes = ascending_names(acc.dom());
    lemma_topo_order(nodes, deps);
    let order = topo_order(nodes, deps);
    let steps = resolution(g, seeds)->Ok_0;
    let names = plan_names(steps);
    assert forall|i: int, j: int|
        0 <= i < steps.len() && 0 <= j < required_names(g, names[i]).len() implies names.take(
            i,
        ).contains(#[trigger] required_names(g, names[i])[j]) by {
        let c = order[i];
        assert(order.contains(c));
        assert(nodes.contains(c));
        assert(nodes.to_set().contains(c));
        assert(acc.contains_key(c));
        assert(deps[c] == required_names(g, c));
        assert(order.take(i).contains(deps[c][j]));
        assert(names.take(i) == order.take(i));
    }
}

/// Whether every comparator of `small` is one of `big`.
pub open spec fn covers(big: Seq<Cv>, small: Seq<Cv>) -> bool {
    forall|c: Cv| small.contains(c) ==> #[trigger] big.contains(c)
}

/// The requirements that the `requires` entries of the spell named `n`
/// parse to.
pub open spec fn parsed_requires(g: Map<Seq<char>, SpellEntry>, n: Seq<char>) -> Seq<Rv> {
    requirements_parse(requires_of(g, n))->Ok_0
}

/// Every requirement of a reached spell is either met in what is gathered
/// (its spell reached with all of its comparators) or still queued.
pub open spec fn merge_inv(g: Map<Seq<char>, SpellEntry>, queue: Seq<Rv>, acc: Acc) -> bool {
    forall|n: Seq<char>, j: int|
        #![trigger acc.contains_key(n), parsed_requires(g, n)[j]]
        acc.contains_key(n) && 0 <= j < parsed_requires(g, n).len() ==> {
            let r = parsed_requires(g, n)[j];
            (acc.contains_key(r.0) && covers(acc[r.0], r.1)) || exists|t: int|
                0 <= t < queue.len() && #[trigger] queue[t] == r
        }
}

/// Expansion meets, in the end, every requirement of every spell it
/// reaches.
proof fn lemma_expand_merges(g: Map<Seq<char>, SpellEntry>, queue: Seq<Rv>, acc: Acc, deps: Deps)
    requires
        g.dom().finite(),
        expand_inv(g, queue, acc, deps),
        merge_inv(g, queue, acc),
        expand(g, queue, acc, deps) is Ok,
    ensures
        merge_inv(g, seq![], expand(g, queue, acc, deps)->Ok_0.0),
    decreases g.dom().len() - acc.dom().len(), queue.len(),
{
    if queue.len() > 0 {
        let name = queue[0].0;
        let cs = queue[0].1;
        let rest = queue.drop_first();
        if acc.contains_key(name) {
            let acc2 = acc.insert(name, acc[name] + cs);
            assert(acc2.dom() =~= acc.dom());
            lemma_expand_props(g, queue, acc, deps);
            assert(expand_inv(g, rest, acc2, deps)) by {
                assert forall|n: Seq<char>, j: int|
                    acc2.contains_key(n) && 0 <= j < deps[n].len() implies acc2.contains_key(
                    #[trigger] deps[n][j],
                ) || dep_names(rest).contains(deps[n][j]) by {
                    if !acc.contains_key(deps[n][j]) {
                        let t = choose|t: int| 0 <= t < dep_names(queue).len() && dep_names(queue)[t] == deps[n][j];
                        if t > 0 {
                            assert(dep_names(rest)[t - 1] == dep_names(queue)[t]);
                        }
                    }
                }
            }
            assert(merge_inv(g, rest, acc2)) by {
                assert forall|n: Seq<char>, j: int|
                    #![trigger acc2.contains_key(n), parsed_requires(g, n)[j]]
                    acc2.contains_key(n) && 0 <= j < parsed_requires(g, n).len() implies {
                    let r = parsed_requires(g, n)[j];
                    (acc2.contains_key(r.0) && covers(acc2[r.0], r.1)) || exists|t: int|
                        0 <= t < rest.len() && #[trigger] rest[t] == r
                } by {
                    let r = parsed_requires(g, n)[j];
                    assert(acc.contains_key(n));
                    if acc.contains_key(r.0) && covers(acc[r.0], r.1) {
                        assert forall|c: Cv| r.1.contains(c) implies #[trigger] acc2[r.0].contains(c) by {
                            assert(acc[r.0].contains(c));
                            if r.0 == name {
                                let a = choose|a: int| 0 <= a < acc[name].len() && acc[name][a] == c;
                                assert((acc[name] + cs)[a] == c);
                            }
                        }
                    } else {
                        let t = choose|t: int| 0 <= t < queue.len() && #[trigger] queue[t] == r;
                        if t == 0 {
                            assert forall|c: Cv| r.1.contains(c) implies #[trigger] acc2[r.0].contains(c) by {
                                let a = choose|a: int| 0 <= a < cs.len() && cs[a] == c;
                                assert((acc[name] + cs)[acc[name].len() + a] == c);
                            }
                        } else {
                            assert(rest[t - 1] == r);
                        }
                    }
                }
            }
            lemma_expand_merges(g, rest, acc2, deps);
        } else {
            let rs = requirements_parse(requires_of(g, name))->Ok_0;
            let acc2 = acc.insert(name, cs);
            let deps2 = deps.insert(name, dep_names(rs));
            let q2 = rest + rs;
            lemma_acc_grows(g, acc, name, cs);
            assert(dep_names(q2) =~= dep_names(rest) + dep_names(rs));
            assert(expand_inv(g, q2, acc2, deps2)) by {
                assert(acc2.dom() =~= deps2.dom());
                assert forall|n: Seq<char>| #[trigger] acc2.contains_key(n) implies requirements_parse(
                    requires_of(g, n),
                ) is Ok && deps2[n] == dep_names(requirements_parse(requires_of(g, n))->Ok_0) by {
                    if n != name {
                        assert(acc.contains_key(n));
                    }
                }
                assert forall|n: Seq<char>, j: int|
                    acc2.contains_key(n) && 0 <= j < deps2[n].len() implies acc2.contains_key(
                    #[trigger] deps2[n][j],
                ) || dep_names(q2).contains(deps2[n][j]) by {
                    if n == name {
                        assert(dep_names(q2)[dep_names(rest).len() + j] == deps2[n][j]);
                    } else {
                        assert(acc.contains_key(n));
                        assert(deps2[n] == deps[n]);
                        if !acc.contains_key(deps[n][j]) {
                            let t = choose|t: int| 0 <= t < dep_names(queue).len() && dep_names(queue)[t] == deps[n][j];
                            if t > 0 {
                                assert(dep_names(q2)[t - 1] == dep_names(queue)[t]);
                            }
                        }
                    }
                }
            }
            assert(merge_inv(g, q2, acc2)) by {
                assert forall|n: Seq<char>, j: int|
                    #![trigger acc2.contains_key(n), parsed_requires(g, n)[j]]
                    acc2.contains_key(n) && 0 <= j < parsed_requires(g, n).len() implies {
                    let r = parsed_requires(g, n)[j];
                    (acc2.contains_key(r.0) && covers(acc2[r.0], r.1)) || exists|t: int|
                        0 <= t < q2.len() && #[trigger] q2[t] == r
                } by {
                    let r = parsed_requires(g, n)[j];
                    if n == name {
                        assert(q2[rest.len() + j] == rs[j]);
                    } else {
                        assert(acc.contains_key(n));
                        if acc.contains_key(r.0) && covers(acc[r.0], r.1) {
                            assert(r.0 != name);
                            assert forall|c: Cv| r.1.contains(c) implies #[trigger] acc2[r.0].contains(c) by {
                                assert(acc[r.0].contains(c));
                            }
                        } else {
                            let t = choose|t: int| 0 <= t < queue.len() && #[trigger] queue[t] == r;
                            if t == 0 {
                                assert(acc2[name] == cs);
                            } else {
                                assert(q2[t - 1] == r);
                            }
                        }
                    }
                }
            }
            lemma_expand_merges(g, q2, acc2, deps2);
        }
    }
}

/// Constraints from several dependents are AND-merged: in a resolved plan,
/// the step of each spell that a planned spell requires holds every
/// comparator that the requiring entry states.
pub proof fn lemma_plan_merges(g: Map<Seq<char>, SpellEntry>, seeds: Seq<Rv>)
    requires
        g.dom().finite(),
        resolution(g, seeds) is Ok,
    ensures
        ({
            let steps = resolution(g, seeds)->Ok_0;
            let names = plan_names(steps);
            forall|i: int, j: int, k: int|
                #![trigger parsed_requires(g, names[i])[j], steps[k]]
                0 <= i < steps.len() && 0 <= j < parsed_requires(g, names[i]).len() && 0 <= k < steps.len()
                    && steps[k].0.0 == parsed_requires(g, names[i])[j].0 ==> covers(
                    steps[k].0.1,
                    parsed_requires(g, names[i])[j].1,
                )
        }),
{
    lemma_expanded_graph(g, seeds);
    lemma_resolution_steps(g, seeds);
    let empty_a = Map::<Seq<char>, Seq<Cv>>::empty();
    let empty_d = Map::<Seq<char>, Seq<Seq<char>>>::empty();
    assert(expand_inv(g, seeds, empty_a, empty_d)) by {
        assert(empty_a.dom() =~= empty_d.dom());
    }
    lemma_expand_merges(g, seeds, empty_a, empty_d);
    let (acc, deps) = expand(g, seeds, empty_a, empty_d)->Ok_0;
    let nodes = ascending_names(acc.dom());
    lemma_topo_order(nodes, deps);
    let order = topo_order(nodes, deps);
    let steps = resolution(g, seeds)->Ok_0;
    let names = plan_names(steps);
    assert forall|i: int, j: int, k: int|
        0 <= i < steps.len() && 0 <= j < parsed_requires(g, names[i]).len() && 0 <= k < steps.len()
            && steps[k].0.0 == parsed_requires(g, names[i])[j].0 implies covers(
            steps[k].0.1,
            parsed_requires(g, names[i])[j].1,
        ) by {
        let n = order[i];
        assert(names[i] == n);
        assert(order.contains(n));
        assert(nodes.contains(n));
        assert(nodes.to_set().contains(n));
        assert(acc.contains_key(n));
        let r = parsed_requires(g, n)[j];
        assert(acc.contains_key(r.0) && covers(acc[r.0], r.1));
        assert(steps[k] == step_of(acc, seeds, order[k]));
    }
}

/// A finite set of names has an ascending arrangement.
pub proof fn lemma_ascending_exists(s: Set<Seq<char>>) -> (q: Seq<Seq<char>>)
    requires
        s.finite(),
    ensures
        ascending(q),
        q.to_set() == s,
    decreases s.len(),
{
    if s.len() == 0 {
        assert(s =~= Set::<Seq<char>>::empty());
        let q = Seq::<Seq<char>>::empty();
        assert(q.to_set() =~= s);
        q
    } else {
        let x = s.choose();
        let q0 = lemma_ascending_exists(s.remove(x));
        // Insert `x` where it belongs.
        let p = crate::text::lemma_ascending_position(q0, x);
        crate::text::lemma_insert_ascending(q0, p, x);
        let q = q0.insert(p, x);
        assert(q.to_set() =~= s) by {
            assert forall|y: Seq<char>| q.to_set().contains(y) <==> s.contains(y) by {
                if q.to_set().contains(y) {
                    let a = choose|a: int| 0 <= a < q.len() && q[a] == y;
                    if a < p {
                        assert(q0[a] == y);
                        assert(q0.to_set().contains(y));
                    } else if a > p {
                        assert(q0[a - 1] == y);
                        assert(q0.to_set().contains(y));
                    }
                }
                if s.contains(y) && y != x {
                    assert(q0.to_set().contains(y));
                    let a = choose|a: int| 0 <= a < q0.len() && q0[a] == y;
                    if a < p {
                        assert(q[a] == y);
                    } else {
                        assert(q[a + 1] == y);
                    }
                }
                if y == x {
                    assert(q[p] == x);
                }
            }
        }
        q
    }
}

/// A resolution fails with a cycle exactly when the spells it reaches hold
/// a stuck set: spells each of which requires another of them.
pub proof fn lemma_cycle_law(g: Map<Seq<char>, SpellEntry>, seeds: Seq<Rv>)
    requires
        g.dom().finite(),
        expand(g, seeds, Map::empty(), Map::empty()) is Ok,
    ensures
        ({
            let (acc, deps) = expand(g, seeds, Map::empty(), Map::empty())->Ok_0;
            (resolution(g, seeds) is Err) <==> has_cycle(ascending_names(acc.dom()), deps)
        }),
{
    lemma_expanded_graph(g, seeds);
    let (acc, deps) = expand(g, seeds, Map::empty(), Map::empty())->Ok_0;
    let nodes = ascending_names(acc.dom());
    lemma_topo_order(nodes, deps);
    crate::topo::lemma_sub_len(topo_order(nodes, deps), nodes);
}


/// Whether the names `s` are closed under what their spells require: each
/// name of `s` whose spell is in the grimoire with a `requires` list that
/// parses has every name it requires in `s`.
pub open spec fn requires_closed(g: Map<Seq<char>, SpellEntry>, s: Set<Seq<char>>) -> bool {
    forall|n: Seq<char>, j: int|
        #![trigger s.contains(n), required_names(g, n)[j]]
        s.contains(n) && g.contains_key(n) && requirements_parse(requires_of(g, n)) is Ok && 0 <= j
            < required_names(g, n).len() ==> s.contains(required_names(g, n)[j])
}

/// Whether the names `s` hold every seed, are spells of the grimoire whose
/// `requires` lists parse, and are closed under what those require.
pub open spec fn resolvable_set(g: Map<Seq<char>, SpellEntry>, seeds: Seq<Rv>, s: Set<Seq<char>>) -> bool {
    &&& forall|i: int| 0 <= i < seeds.len() ==> s.contains(#[trigger] seeds[i].0)
    &&& forall|n: Seq<char>|
        #[trigger] s.contains(n) ==> g.contains_key(n) && requirements_parse(requires_of(g, n)) is Ok
    &&& requires_closed(g, s)
}

/// Expanding a queue whose names lie in a closed set `s` reaches only names
/// of `s`; where every name of `s` is a spell whose `requires` list parses,
/// it does not fail.
proof fn lemma_expand_within(
    g: Map<Seq<char>, SpellEntry>,
    queue: Seq<Rv>,
    acc: Acc,
    deps: Deps,
    s: Set<Seq<char>>,
)
    requires
        g.dom().finite(),
        acc.dom().subset_of(g.dom()),
        acc.dom().subset_of(s),
        forall|t: int| 0 <= t < queue.len() ==> s.contains(#[trigger] queue[t].0),
        requires_closed(g, s),
    ensures
        expand(g, queue, acc, deps) is Ok ==> expand(g, queue, acc, deps)->Ok_0.0.dom().subset_of(s),
        (forall|n: Seq<char>|
            #[trigger] s.contains(n) ==> g.contains_key(n) && requirements_parse(requires_of(g, n)) is Ok)
            ==> expand(g, queue, acc, deps) is Ok,
    decreases g.dom().len() - acc.dom().len(), queue.len(),
{
    if queue.len() > 0 {
        let name = queue[0].0;
        let cs = queue[0].1;
        let rest = queue.drop_first();
        assert(s.contains(name));
        assert forall|t: int| 0 <= t < rest.len() implies s.contains(#[trigger] rest[t].0) by {
            assert(rest[t] == queue[t + 1]);
        }
        if acc.contains_key(name) {
            let acc2 = acc.insert(name, acc[name] + cs);
            assert(acc2.dom() =~= acc.dom());
            lemma_expand_within(g, rest, acc2, deps, s);
        } else if g.contains_key(name) && requirements_parse(requires_of(g, name)) is Ok {
            let rs = requirements_parse(requires_of(g, name))->Ok_0;
            let acc2 = acc.insert(name, cs);
            let q2 = rest + rs;
            lemma_acc_grows(g, acc, name, cs);
            assert forall|t: int| 0 <= t < q2.len() implies s.contains(#[trigger] q2[t].0) by {
                if t < rest.len() {
                    assert(q2[t] == rest[t]);
                } else {
                    let j = t - rest.len();
                    assert(q2[t] == rs[j]);
                    assert(required_names(g, name)[j] == rs[j].0);
                }
            }
            lemma_expand_within(g, q2, acc2, deps.insert(name, dep_names(rs)), s);
        }
    }
}

/// Expansion fails only on a spell missing from the grimoire or on a
/// `requires` entry that does not parse, never with a cycle.
proof fn lemma_expand_no_cycle(g: Map<Seq<char>, SpellEntry>, queue: Seq<Rv>, acc: Acc, deps: Deps)
    requires
        g.dom().finite(),
        acc.dom().subset_of(g.dom()),
    ensures
        expand(g, queue, acc, deps) is Err ==> !(expand(g, queue, acc, deps)->Err_0 is Cycle),
    decreases g.dom().len() - acc.dom().len(), queue.len(),
{
    if queue.len() > 0 {
        let name = queue[0].0;
        let cs = queue[0].1;
        let rest = queue.drop_first();
        if acc.contains_key(name) {
            let acc2 = acc.insert(name, acc[name] + cs);
            assert(acc2.dom() =~= acc.dom());
            lemma_expand_no_cycle(g, rest, acc2, deps);
        } else if g.contains_key(name) && requirements_parse(requires_of(g, name)) is Ok {
            let rs = requirements_parse(requires_of(g, name))->Ok_0;
            lemma_acc_grows(g, acc, name, cs);
            lemma_expand_no_cycle(g, rest + rs, acc.insert(name, cs), deps.insert(name, dep_names(rs)));
        }
    }
}

/// The spells of a resolved plan are the least set of names that holds
/// the seeds and is closed under what its spells require: the plan's names
/// hold every seed and are closed so, and any such set holds them all.
pub proof fn lemma_plan_least(g: Map<Seq<char>, SpellEntry>, seeds: Seq<Rv>, s: Set<Seq<char>>)
    requires
        g.dom().finite(),
        resolution(g, seeds) is Ok,
        forall|i: int| 0 <= i < seeds.len() ==> s.contains(#[trigger] seeds[i].0),
        requires_closed(g, s),
    ensures
        ({
            let names = plan_names(resolution(g, seeds)->Ok_0);
            &&& forall|i: int| 0 <= i < seeds.len() ==> names.contains(#[trigger] seeds[i].0)
            &&& requires_closed(g, names.to_set())
            &&& forall|k: int| 0 <= k < names.len() ==> s.contains(#[trigger] names[k])
        }),
{
    lemma_plan_seeds(g, seeds);
    lemma_plan_order(g, seeds);
    lemma_expanded_graph(g, seeds);
    lemma_resolution_steps(g, seeds);
    let (acc, deps) = expand(g, seeds, Map::empty(), Map::empty())->Ok_0;
    let nodes = ascending_names(acc.dom());
    lemma_topo_order(nodes, deps);
    let order = topo_order(nodes, deps);
    let steps = resolution(g, seeds)->Ok_0;
    let names = plan_names(steps);
    assert(names == order);
    lemma_expand_within(g, seeds, Map::empty(), Map::empty(), s);
    assert forall|k: int| 0 <= k < names.len() implies s.contains(#[trigger] names[k]) by {
        assert(order.contains(order[k]));
        assert(nodes.contains(order[k]));
        assert(nodes.to_set().contains(order[k]));
        assert(acc.contains_key(order[k]));
    }
    assert forall|n: Seq<char>, j: int|
        #![trigger names.to_set().contains(n), required_names(g, n)[j]]
        names.to_set().contains(n) && g.contains_key(n) && requirements_parse(requires_of(g, n)) is Ok && 0
            <= j < required_names(g, n).len() implies names.to_set().contains(required_names(g, n)[j]) by {
        let i = choose|i: int| 0 <= i < names.len() && names[i] == n;
        assert(names.take(i).contains(required_names(g, names[i])[j]));
        let t = choose|t: int| 0 <= t < names.take(i).len() && names.take(i)[t] == required_names(g, n)[j];
        assert(names[t] == required_names(g, n)[j]);
    }
}

/// Resolving fails for a reason other than a cycle (a spell that is not in
/// the grimoire, or a `requires` entry that does not parse) exactly when no
/// set of spells holds the seeds, has `requires` lists that all parse, and
/// is closed under what they require.
pub proof fn lemma_resolve_failure(g: Map<Seq<char>, SpellEntry>, seeds: Seq<Rv>)
    requires
        g.dom().finite(),
    ensures
        (resolution(g, seeds) is Err && !(resolution(g, seeds)->Err_0 is Cycle)) <==> !exists|s: Set<Seq<char>>|
            resolvable_set(g, seeds, s),
{
    if expand(g, seeds, Map::empty(), Map::empty()) is Ok {
        lemma_expanded_graph(g, seeds);
        let (acc, deps) = expand(g, seeds, Map::empty(), Map::empty())->Ok_0;
        let s = acc.dom();
        assert forall|n: Seq<char>| #[trigger] s.contains(n) implies g.contains_key(n) && requirements_parse(
            requires_of(g, n),
        ) is Ok by {
            assert(acc.contains_key(n));
        }
        assert forall|n: Seq<char>, j: int|
            #![trigger s.contains(n), required_names(g, n)[j]]
            s.contains(n) && g.contains_key(n) && requirements_parse(requires_of(g, n)) is Ok && 0 <= j
                < required_names(g, n).len() implies s.contains(required_names(g, n)[j]) by {
            assert(acc.contains_key(n));
            assert(deps[n] == required_names(g, n));
            assert(!dep_names(Seq::<Rv>::empty()).contains(deps[n][j]));
            assert(acc.contains_key(deps[n][j]));
        }
        assert(resolvable_set(g, seeds, s));
    } else {
        lemma_expand_no_cycle(g, seeds, Map::empty(), Map::empty());
        assert forall|s: Set<Seq<char>>| !resolvable_set(g, seeds, s) by {
            if resolvable_set(g, seeds, s) {
                lemma_expand_within(g, seeds, Map::empty(), Map::empty(), s);
            }
        }
    }
}

/// The comparators that the requirements `rs` place on the spell `n`, in
/// order.
pub open spec fn comparators_on(rs: Seq<Rv>, n: Seq<char>) -> Seq<Cv>
    decreases rs.len(),
{
    if rs.len() == 0 {
        Seq::<Cv>::empty()
    } else {
        (if rs[0].0 == n {
            rs[0].1
        } else {
            Seq::<Cv>::empty()
        }) + comparators_on(rs.drop_first(), n)
    }
}

/// The comparators that the `requires` entries of the spells `names` place
/// on the spell `n`, spell by spell.
pub open spec fn required_on(g: Map<Seq<char>, SpellEntry>, names: Seq<Seq<char>>, n: Seq<char>) -> Seq<Cv>
    decreases names.len(),
{
    if names.len() == 0 {
        Seq::<Cv>::empty()
    } else {
        comparators_on(parsed_requires(g, names[0]), n) + required_on(g, names.drop_first(), n)
    }
}

proof fn lemma_comparators_on_concat(a: Seq<Rv>, b: Seq<Rv>, n: Seq<char>)
    ensures
        comparators_on(a + b, n) == comparators_on(a, n) + comparators_on(b, n),
    decreases a.len(),
{
    if a.len() == 0 {
        assert(a + b =~= b);
        assert(comparators_on(a, n) + comparators_on(b, n) =~= comparators_on(b, n));
    } else {
        lemma_comparators_on_concat(a.drop_first(), b, n);
        assert((a + b).drop_first() =~= a.drop_first() + b);
        assert((a + b)[0] == a[0]);
        let h = if a[0].0 == n {
            a[0].1
        } else {
            Seq::<Cv>::empty()
        };
        assert(h + (comparators_on(a.drop_first(), n) + comparators_on(b, n)) =~= (h + comparators_on(
            a.drop_first(),
            n,
        )) + comparators_on(b, n));
    }
}

proof fn lemma_required_on_concat(g: Map<Seq<char>, SpellEntry>, a: Seq<Seq<char>>, b: Seq<Seq<char>>, n: Seq<char>)
    ensures
        required_on(g, a + b, n) == required_on(g, a, n) + required_on(g, b, n),
    decreases a.len(),
{
    if a.len() == 0 {
        assert(a + b =~= b);
        assert(required_on(g, a, n) + required_on(g, b, n) =~= required_on(g, b, n));
    } else {
        lemma_required_on_concat(g, a.drop_first(), b, n);
        assert((a + b).drop_first() =~= a.drop_first() + b);
        assert((a + b)[0] == a[0]);
        let h = comparators_on(parsed_requires(g, a[0]), n);
        assert(h + (required_on(g, a.drop_first(), n) + required_on(g, b, n)) =~= (h + required_on(
            g,
            a.drop_first(),
            n,
        )) + required_on(g, b, n));
    }
}

proof fn lemma_required_on_one(g: Map<Seq<char>, SpellEntry>, x: Seq<char>, n: Seq<char>)
    ensures
        required_on(g, seq![x], n) == comparators_on(parsed_requires(g, x), n),
{
    reveal_with_fuel(required_on, 2);
    assert(seq![x][0] == x);
    assert(seq![x].drop_first() =~= Seq::<Seq<char>>::empty());
    assert(comparators_on(parsed_requires(g, x), n) + Seq::<Cv>::empty() =~= comparators_on(
        parsed_requires(g, x),
        n,
    ));
}

/// What the spells `names` require of `n` does not depend on their order.
proof fn lemma_required_on_perm(g: Map<Seq<char>, SpellEntry>, a: Seq<Seq<char>>, b: Seq<Seq<char>>, n: Seq<char>)
    requires
        a.no_duplicates(),
        b.no_duplicates(),
        forall|x: Seq<char>| a.contains(x) <==> b.contains(x),
    ensures
        required_on(g, a, n).to_multiset() == required_on(g, b, n).to_multiset(),
    decreases a.len(),
{
    broadcast use vstd::seq_lib::lemma_multiset_commutative;

    if a.len() == 0 {
        if b.len() > 0 {
            assert(b.contains(b[0]));
        }
        assert(b =~= Seq::<Seq<char>>::empty());
    } else {
        let x = a[0];
        assert(a.contains(x));
        let p = choose|p: int| 0 <= p < b.len() && b[p] == x;
        let u = b.take(p);
        let v = b.skip(p + 1);
        assert(b =~= u + seq![x] + v);
        let b2 = u + v;
        let a2 = a.drop_first();
        assert(a2.no_duplicates());
        assert(b2.no_duplicates()) by {
            assert forall|i: int, j: int| 0 <= i < j < b2.len() implies b2[i] != b2[j] by {
                let bi = if i < u.len() { i } else { i + 1 };
                let bj = if j < u.len() { j } else { j + 1 };
                assert(b2[i] == b[bi]);
                assert(b2[j] == b[bj]);
            }
        }
        assert forall|y: Seq<char>| a2.contains(y) <==> b2.contains(y) by {
            if a2.contains(y) {
                let i = choose|i: int| 0 <= i < a2.len() && a2[i] == y;
                assert(a[i + 1] == y);
                assert(y != x);
                assert(b.contains(y));
                let j = choose|j: int| 0 <= j < b.len() && b[j] == y;
                assert(j != p);
                if j < p {
                    assert(b2[j] == y);
                } else {
                    assert(b2[j - 1] == y);
                }
            }
            if b2.contains(y) {
                let j = choose|j: int| 0 <= j < b2.len() && b2[j] == y;
                let bj = if j < u.len() { j } else { j + 1 };
                assert(b[bj] == y);
                assert(bj != p);
                assert(y != x);
                assert(a.contains(y));
                let i = choose|i: int| 0 <= i < a.len() && a[i] == y;
                assert(i != 0);
                assert(a2[i - 1] == y);
            }
        }
        lemma_required_on_perm(g, a2, b2, n);
        lemma_required_on_concat(g, u + seq![x], v, n);
        lemma_required_on_concat(g, u, seq![x], n);
        lemma_required_on_concat(g, u, v, n);
        lemma_required_on_one(g, x, n);
        assert(a =~= seq![x] + a2);
        lemma_required_on_concat(g, seq![x], a2, n);
        let cx = comparators_on(parsed_requires(g, x), n);
        assert(required_on(g, b, n) == required_on(g, u, n) + cx + required_on(g, v, n));
        assert(required_on(g, a, n) == cx + required_on(g, a2, n));
        assert(required_on(g, b2, n) == required_on(g, u, n) + required_on(g, v, n));
        assert(required_on(g, b, n).to_multiset() =~= required_on(g, u, n).to_multiset().add(cx.to_multiset()).add(
            required_on(g, v, n).to_multiset(),
        ));
        assert(required_on(g, a, n).to_multiset() =~= cx.to_multiset().add(required_on(g, a2, n).to_multiset()));
        assert(required_on(g, b2, n).to_multiset() =~= required_on(g, u, n).to_multiset().add(
            required_on(g, v, n).to_multiset(),
        ));
    }
}

/// The comparators gathered for `n` so far, if `n` is reached.
pub open spec fn acc_on(acc: Acc, n: Seq<char>) -> Seq<Cv> {
    if acc.contains_key(n) {
        acc[n]
    } else {
        Seq::<Cv>::empty()
    }
}

/// Whether what is gathered, with what is still queued, is what the seeds
/// and the `requires` of the spells `seen` place on each spell.
pub open spec fn gather_inv(g: Map<Seq<char>, SpellEntry>, seeds: Seq<Rv>, queue: Seq<Rv>, acc: Acc, seen: Seq<Seq<char>>) -> bool {
    &&& seen.no_duplicates()
    &&& forall|x: Seq<char>| seen.contains(x) <==> acc.contains_key(x)
    &&& forall|n: Seq<char>|
        (#[trigger] acc_on(acc, n) + comparators_on(queue, n)).to_multiset() == (comparators_on(seeds, n)
            + required_on(g, seen, n)).to_multiset()
}

/// Expansion keeps the gathering invariant, with the spells reached in the
/// order it reaches them.
proof fn lemma_expand_gathers(
    g: Map<Seq<char>, SpellEntry>,
    seeds: Seq<Rv>,
    queue: Seq<Rv>,
    acc: Acc,
    deps: Deps,
    seen: Seq<Seq<char>>,
) -> (seen2: Seq<Seq<char>>)
    requires
        g.dom().finite(),
        acc.dom().subset_of(g.dom()),
        gather_inv(g, seeds, queue, acc, seen),
        expand(g, queue, acc, deps) is Ok,
    ensures
        gather_inv(g, seeds, seq![], expand(g, queue, acc, deps)->Ok_0.0, seen2),
    decreases g.dom().len() - acc.dom().len(), queue.len(),
{
    broadcast use vstd::seq_lib::lemma_multiset_commutative;

    if queue.len() == 0 {
        seen
    } else {
        let name = queue[0].0;
        let cs = queue[0].1;
        let rest = queue.drop_first();
        if acc.contains_key(name) {
            let acc2 = acc.insert(name, acc[name] + cs);
            assert(acc2.dom() =~= acc.dom());
            assert forall|n: Seq<char>|
                (#[trigger] acc_on(acc2, n) + comparators_on(rest, n)).to_multiset() == (comparators_on(seeds, n)
                    + required_on(g, seen, n)).to_multiset() by {
                assert(acc_on(acc, n) + comparators_on(queue, n) == acc_on(acc, n) + comparators_on(queue, n));
                if n == name {
                    assert(acc_on(acc2, n) + comparators_on(rest, n) =~= acc_on(acc, n) + comparators_on(queue, n));
                } else {
                    assert(acc_on(acc2, n) + comparators_on(rest, n) =~= acc_on(acc, n) + comparators_on(queue, n));
                }
            }
            lemma_expand_gathers(g, seeds, rest, acc2, deps, seen)
        } else {
            let rs = requirements_parse(requires_of(g, name))->Ok_0;
            let acc2 = acc.insert(name, cs);
            let q2 = rest + rs;
            let seen2 = seen.push(name);
            lemma_acc_grows(g, acc, name, cs);
            assert(seen2.no_duplicates()) by {
                assert(!seen.contains(name));
            }
            assert forall|x: Seq<char>| seen2.contains(x) <==> acc2.contains_key(x) by {
                if seen2.contains(x) {
                    let i = choose|i: int| 0 <= i < seen2.len() && seen2[i] == x;
                    if i < seen.len() {
                        assert(seen[i] == x);
                        assert(seen.contains(x));
                        assert(acc.contains_key(x));
                    } else {
                        assert(x == name);
                    }
                    assert(acc2.contains_key(x));
                }
                if acc2.contains_key(x) {
                    if x == name {
                        assert(seen2[seen.len() as int] == name);
                    } else {
                        assert(acc.contains_key(x));
                        assert(seen.contains(x));
                        let i = choose|i: int| 0 <= i < seen.len() && seen[i] == x;
                        assert(seen2[i] == x);
                    }
                    assert(seen2.contains(x));
                }
            }
            assert forall|n: Seq<char>|
                (#[trigger] acc_on(acc2, n) + comparators_on(q2, n)).to_multiset() == (comparators_on(seeds, n)
                    + required_on(g, seen2, n)).to_multiset() by {
                assert(acc_on(acc, n) + comparators_on(queue, n) == acc_on(acc, n) + comparators_on(queue, n));
                lemma_comparators_on_concat(rest, rs, n);
                lemma_required_on_concat(g, seen, seq![name], n);
                lemma_required_on_one(g, name, n);
                assert(seen2 =~= seen + seq![name]);
                let before = acc_on(acc, n) + comparators_on(queue, n);
                let extra = comparators_on(rs, n);
                assert(acc_on(acc2, n) + comparators_on(q2, n) =~= before + extra);
                assert(comparators_on(seeds, n) + required_on(g, seen2, n) =~= (comparators_on(seeds, n) + required_on(
                    g,
                    seen,
                    n,
                )) + extra);
                assert((before + extra).to_multiset() =~= before.to_multiset().add(extra.to_multiset()));
                assert(((comparators_on(seeds, n) + required_on(g, seen, n)) + extra).to_multiset() =~= (
                comparators_on(seeds, n) + required_on(g, seen, n)).to_multiset().add(extra.to_multiset()));
            }
            lemma_expand_gathers(g, seeds, q2, acc2, deps.insert(name, dep_names(rs)), seen2)
        }
    }
}

/// Constraints are merged exactly: in a resolved plan, each spell's step
/// holds, counted with repeats, the comparators that the seeds place on it
/// together with those that the `requires` entries of the planned spells
/// place on it, and nothing else.
pub proof fn lemma_plan_merges_exactly(g: Map<Seq<char>, SpellEntry>, seeds: Seq<Rv>)
    requires
        g.dom().finite(),
        resolution(g, seeds) is Ok,
    ensures
        ({
            let steps = resolution(g, seeds)->Ok_0;
            let names = plan_names(steps);
            forall|k: int|
                0 <= k < steps.len() ==> (#[trigger] steps[k]).0.1.to_multiset() == (comparators_on(seeds, names[k])
                    + required_on(g, names, names[k])).to_multiset()
        }),
{
    broadcast use vstd::seq_lib::lemma_multiset_commutative;

    lemma_expanded_graph(g, seeds);
    lemma_resolution_steps(g, seeds);
    lemma_cycle_law(g, seeds);
    let empty_a = Map::<Seq<char>, Seq<Cv>>::empty();
    let empty_d = Map::<Seq<char>, Seq<Seq<char>>>::empty();
    let empty_s = Seq::<Seq<char>>::empty();
    assert(gather_inv(g, seeds, seeds, empty_a, empty_s)) by {
        assert forall|n: Seq<char>|
            (#[trigger] acc_on(empty_a, n) + comparators_on(seeds, n)).to_multiset() == (comparators_on(seeds, n)
                + required_on(g, empty_s, n)).to_multiset() by {
            assert(acc_on(empty_a, n) + comparators_on(seeds, n) =~= comparators_on(seeds, n) + required_on(
                g,
                empty_s,
                n,
            ));
        }
    }
    let seen = lemma_expand_gathers(g, seeds, seeds, empty_a, empty_d, empty_s);
    let (acc, deps) = expand(g, seeds, empty_a, empty_d)->Ok_0;
    let nodes = ascending_names(acc.dom());
    lemma_topo_order(nodes, deps);
    let order = topo_order(nodes, deps);
    let steps = resolution(g, seeds)->Ok_0;
    let names = plan_names(steps);
    assert(names == order);
    assert forall|x: Seq<char>| seen.contains(x) <==> order.contains(x) by {
        if seen.contains(x) {
            assert(acc.contains_key(x));
            assert(nodes.to_set().contains(x));
        }
        if order.contains(x) {
            assert(nodes.contains(x));
            assert(nodes.to_set().contains(x));
        }
    }
    assert forall|k: int| 0 <= k < steps.len() implies (#[trigger] steps[k]).0.1.to_multiset() == (comparators_on(
        seeds,
        names[k],
    ) + required_on(g, names, names[k])).to_multiset() by {
        let n = order[k];
        assert(steps[k] == step_of(acc, seeds, n));
        assert(order.contains(n));
        assert(seen.contains(n));
        assert(acc.contains_key(n));
        assert(comparators_on(Seq::<Rv>::empty(), n) =~= Seq::<Cv>::empty());
        assert(acc_on(acc, n) + comparators_on(Seq::<Rv>::empty(), n) =~= acc[n]);
        lemma_required_on_perm(g, seen, order, n);
    }
}

/// Whether every spell's `requires` list parses, up to its first failing
/// entry, where parsing is defined. Spells that validated have such lists.
pub open spec fn grimoire_defined(g: Map<Seq<char>, SpellEntry>) -> bool {
    forall|n: Seq<char>| #[trigger] g.contains_key(n) ==> requirements_in_bounds(requires_of(g, n))
}

/// Expanding over a grimoire whose `requires` lists are all defined stays
/// where parsing is defined, whatever the queue.
pub proof fn lemma_defined_in_bounds(g: Map<Seq<char>, SpellEntry>, queue: Seq<Rv>, acc: Acc)
    requires
        g.dom().finite(),
        acc.dom().subset_of(g.dom()),
        grimoire_defined(g),
    ensures
        expand_in_bounds(g, queue, acc),
    decreases g.dom().len() - acc.dom().len(), queue.len(),
{
    if queue.len() > 0 {
        let name = queue[0].0;
        let cs = queue[0].1;
        if acc.contains_key(name) {
            let acc2 = acc.insert(name, acc[name] + cs);
            assert(acc2.dom() =~= acc.dom());
            lemma_defined_in_bounds(g, queue.drop_first(), acc2);
        } else if g.contains_key(name) {
            match requirements_parse(requires_of(g, name)) {
                Err(_) => {},
                Ok(rs) => {
                    lemma_acc_grows(g, acc, name, cs);
                    lemma_defined_in_bounds(g, queue.drop_first() + rs, acc.insert(name, cs));
                },
            }
        }
    }
}

/// Whether every spell's `requires` list is one on which parsing is
/// defined.
#[verifier::spinoff_prover]
pub fn requires_defined(grimoire: &Grimoire) -> (r: bool)
    ensures
        r == grimoire_defined(grimoire@),
{
    let entries = grimoire.iter();
    let mut i: usize = 0;
    while i < entries.len()
        invariant
            i <= entries.len(),
            entries@ == grimoire.entries(),
            forall|j: int| 0 <= j < entries@.len() ==> #[trigger] grimoire@[entries@[j].spell.name@] == entries@[j]
                && grimoire@.contains_key(entries@[j].spell.name@),
            forall|k: Seq<char>| #[trigger] grimoire@.contains_key(k) ==> exists|j: int|
                0 <= j < entries@.len() && entries@[j].spell.name@ == k,
            forall|j: int| 0 <= j < i ==> requirements_in_bounds(entry_views(#[trigger] entries@[j].spell.requires@)),
        decreases entries.len() - i,
    {
        if !crate::constraint::requirements_defined(&entries[i].spell.requires) {
            proof {
                let n = entries@[i as int].spell.name@;
                assert(grimoire@[n] == entries@[i as int]);
                assert(grimoire@.contains_key(n));
            }
            return false;
        }
        i = i + 1;
    }
    proof {
        assert forall|n: Seq<char>| #[trigger] grimoire@.contains_key(n) implies requirements_in_bounds(
            requires_of(grimoire@, n),
        ) by {
            let j = choose|j: int| 0 <= j < entries@.len() && entries@[j].spell.name@ == n;
            assert(grimoire@[entries@[j].spell.name@] == entries@[j]);
        }
    }
    true
}

/// The text that describes a resolve error.
pub open spec fn resolve_message(e: ResolveFault) -> Seq<char> {
    match e {
        ResolveFault::NotInGrimoire(name) => "spell "@ + quoted(name) + " is referenced but not in the grimoire"@,
        ResolveFault::InvalidRequires(spell, entry, _) => "spell "@ + quoted(spell) + ": invalid requires entry "@
            + quoted(entry),
        ResolveFault::Cycle(names) => "dependency cycle detected involving: "@ + crate::text::join(names, ", "@),
    }
}

impl ResolveError {
    /// The error as a sentence. Names are shown in double quotes, as `{:?}`
    /// shows them; characters that `{:?}` would escape are written as they
    /// are.
    pub fn message(&self) -> (r: String)
        ensures
            r@ == resolve_message(self@),
    {
        match self {
            ResolveError::NotInGrimoire { name } => {
                let mut s = String::from_str("spell \"");
                s.append(name.as_str());
                s.append("\" is referenced but not in the grimoire");
                proof {
                    reveal_strlit("spell \"");
                    reveal_strlit("spell ");
                    reveal_strlit("\" is referenced but not in the grimoire");
                    reveal_strlit(" is referenced but not in the grimoire");
                    assert(s@ =~= resolve_message(self@));
                }
                s
            },
            ResolveError::InvalidRequires { spell, entry, .. } => {
                let mut s = String::from_str("spell \"");
                s.append(spell.as_str());
                s.append("\": invalid requires entry \"");
                s.append(entry.as_str());
                s.append("\"");
                proof {
                    reveal_strlit("spell \"");
                    reveal_strlit("spell ");
                    reveal_strlit("\": invalid requires entry \"");
                    reveal_strlit(": invalid requires entry ");
                    reveal_strlit("\"");
                    assert(s@ =~= resolve_message(self@));
                }
                s
            },
            ResolveError::Cycle { involving } => {
                let mut s = String::from_str("dependency cycle detected involving: ");
                s.append(crate::text::join_strings(involving, ", ").as_str());
                s
            },
        }
    }
}
} // verus!