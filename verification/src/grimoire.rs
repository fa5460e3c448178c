//! The grimoire: the collection of available spells, keyed by name. Spells
//! bundled with the program and the user's personal spells are merged into
//! it; a personal spell with the name of a bundled one replaces it.
use crate::spell::Spell;
use crate::text::{lemma_lex_equal, lemma_lex_trans, lex, lex_order_str, str_eq, Order};
use vstd::prelude::*;

verus! {

#[derive(Debug, Clone)]
pub struct SpellEntry {
    pub spell: Spell,
    pub source: Source,
}

#[derive(Debug, Clone, Copy, PartialEq, Eq, Structural)]
pub enum Source {
    Embedded,
    Personal,
}

/// The combined collection of spells, kept in ascending name order with
/// each name once.
pub struct Grimoire {
    spells: Vec<SpellEntry>,
}

/// Whether the entries' names ascend strictly.
pub open spec fn names_ascend(s: Seq<SpellEntry>) -> bool {
    forall|i: int, j: int|
        0 <= i < j < s.len() ==> lex(#[trigger] s[i].spell.name@, #[trigger] s[j].spell.name@)
            == Order::Less
}

/// Index of the first entry named `k`, or `s.len()`.
pub open spec fn entry_index(s: Seq<SpellEntry>, k: Seq<char>) -> int
    decreases s.len(),
{
    if s.len() == 0 {
        0
    } else if s[0].spell.name@ == k {
        0
    } else {
        1 + entry_index(s.drop_first(), k)
    }
}

pub proof fn lemma_entry_index(s: Seq<SpellEntry>, k: Seq<char>)
    ensures
        0 <= entry_index(s, k) <= s.len(),
        entry_index(s, k) < s.len() ==> s[entry_index(s, k)].spell.name@ == k,
        forall|i: int| 0 <= i < entry_index(s, k) ==> s[i].spell.name@ != k,
    decreases s.len(),
{
    if s.len() > 0 && s[0].spell.name@ != k {
        lemma_entry_index(s.drop_first(), k);
        assert forall|i: int| 0 <= i < entry_index(s, k) implies s[i].spell.name@ != k by {
            if i > 0 {
                assert(s[i] == s.drop_first()[i - 1]);
            }
        }
    }
}

pub proof fn lemma_entry_index_at(s: Seq<SpellEntry>, k: Seq<char>, p: int)
    requires
        0 <= p <= s.len(),
        forall|i: int| 0 <= i < p ==> s[i].spell.name@ != k,
        p == s.len() || s[p].spell.name@ == k,
    ensures
        entry_index(s, k) == p,
{
    lemma_entry_index(s, k);
    if entry_index(s, k) < p {
        assert(s[entry_index(s, k)].spell.name@ == k);
    }
    if entry_index(s, k) > p {
        assert(s[p].spell.name@ != k);
    }
}

/// In ascending entries, the entry named `k` is the only one so named.
pub proof fn lemma_unique_index(s: Seq<SpellEntry>, k: Seq<char>, p: int)
    requires
        names_ascend(s),
        0 <= p < s.len(),
        s[p].spell.name@ == k,
    ensures
        entry_index(s, k) == p,
{
    assert forall|i: int| 0 <= i < p implies s[i].spell.name@ != k by {
        lemma_lex_equal(s[i].spell.name@, s[p].spell.name@);
    }
    lemma_entry_index_at(s, k, p);
}

/// The entries as a map from name to entry.
pub open spec fn entries_map(s: Seq<SpellEntry>) -> Map<Seq<char>, SpellEntry> {
    Map::new(|k: Seq<char>| entry_index(s, k) < s.len(), |k: Seq<char>| s[entry_index(s, k)])
}

impl Grimoire {
    #[verifier::type_invariant]
    spec fn ascending(&self) -> bool {
        names_ascend(self.spells@)
    }

    /// The entries in ascending name order.
    pub closed spec fn entries(&self) -> Seq<SpellEntry> {
        self.spells@
    }

    /// The spells by name.
    pub open spec fn view(&self) -> Map<Seq<char>, SpellEntry> {
        entries_map(self.entries())
    }

    /// An empty grimoire.
    pub fn new() -> (g: Grimoire)
        ensures
            g@ == Map::<Seq<char>, SpellEntry>::empty(),
            g.entries().len() == 0,
    {
        let g = Grimoire { spells: Vec::new() };
        assert(g@ =~= Map::<Seq<char>, SpellEntry>::empty());
        g
    }

    /// Add `entry` under its spell's name, replacing any entry of that name.
    pub fn insert(&mut self, entry: SpellEntry)
        ensures
            final(self)@ == old(self)@.insert(entry.spell.name@, entry),
            names_ascend(final(self).entries()),
    {
        proof {
            use_type_invariant(&*self);
        }
        let mut v: Vec<SpellEntry> = Vec::new();
        std::mem::swap(&mut v, &mut self.spells);
        let ghost s = v@;
        let ghost k = entry.spell.name@;
        let mut p: usize = 0;
        while p < v.len() && lex_order_str(v[p].spell.name.as_str(), entry.spell.name.as_str())
            == Order::Less
            invariant
                v@ == s,
                k == entry.spell.name@,
                names_ascend(s),
                p <= s.len(),
                forall|i: int| 0 <= i < p ==> lex(#[trigger] s[i].spell.name@, k) == Order::Less,
            decreases s.len() - p,
        {
            p = p + 1;
        }
        proof {
            assert forall|i: int| 0 <= i < p implies s[i].spell.name@ != k by {
                lemma_lex_equal(s[i].spell.name@, k);
            }
        }
        if p < v.len() && lex_order_str(v[p].spell.name.as_str(), entry.spell.name.as_str())
            == Order::Equal {
            proof {
                lemma_lex_equal(s[p as int].spell.name@, k);
            }
            v.set(p, entry);
            proof {
                let t = v@;
                assert(names_ascend(t)) by {
                    assert forall|i: int, j: int| 0 <= i < j < t.len() implies lex(
                        #[trigger] t[i].spell.name@,
                        #[trigger] t[j].spell.name@,
                    ) == Order::Less by {
                        assert(t[i].spell.name@ == s[i].spell.name@);
                        assert(t[j].spell.name@ == s[j].spell.name@);
                    }
                }
                assert(entries_map(t) =~= entries_map(s).insert(k, entry)) by {
                    assert forall|x: Seq<char>| #[trigger] entries_map(t).contains_key(x)
                        <==> entries_map(s).insert(k, entry).contains_key(x) by {
                        lemma_entry_index(t, x);
                        lemma_entry_index(s, x);
                        if entry_index(s, x) < s.len() {
                            lemma_unique_index(t, x, entry_index(s, x));
                        }
                        if entry_index(t, x) < t.len() {
                            lemma_unique_index(s, x, entry_index(t, x));
                        }
                    }
                    assert forall|x: Seq<char>| #[trigger] entries_map(t).contains_key(x) implies
                        entries_map(t)[x] == entries_map(s).insert(k, entry)[x] by {
                        lemma_entry_index(t, x);
                        lemma_unique_index(s, x, entry_index(t, x));
                        lemma_unique_index(t, k, p as int);
                    }
                }
            }
        } else {
            proof {
                if p < s.len() {
                    lemma_lex_equal(s[p as int].spell.name@, k);
                }
            }
            v.insert(p, entry);
            proof {
                let t = v@;
                assert(names_ascend(t)) by {
                    assert forall|i: int, j: int| 0 <= i < j < t.len() implies lex(
                        #[trigger] t[i].spell.name@,
                        #[trigger] t[j].spell.name@,
                    ) == Order::Less by {
                        if j < p {
                        } else if j == p {
                        } else if i < p {
                            assert(t[j] == s[j - 1]);
                        } else if i == p {
                            assert(t[j] == s[j - 1]);
                            if j - 1 > p {
                                lemma_lex_trans(k, s[p as int].spell.name@, s[j - 1].spell.name@);
                            }
                        } else {
                            assert(t[i] == s[i - 1]);
                            assert(t[j] == s[j - 1]);
                        }
                    }
                }
                assert(entries_map(t) =~= entries_map(s).insert(k, entry)) by {
                    assert forall|x: Seq<char>| #[trigger] entries_map(t).contains_key(x)
                        <==> entries_map(s).insert(k, entry).contains_key(x) by {
                        lemma_entry_index(t, x);
                        lemma_entry_index(s, x);
                        if entry_index(s, x) < s.len() {
                            let q = entry_index(s, x);
                            if q < p {
                                assert(t[q] == s[q]);
                                lemma_unique_index(t, x, q);
                            } else {
                                assert(t[q + 1] == s[q]);
                                lemma_unique_index(t, x, q + 1);
                            }
                        }
                        if x == k {
                            lemma_unique_index(t, x, p as int);
                        }
                        if entry_index(t, x) < t.len() && x != k {
                            let q = entry_index(t, x);
                            if q < p {
                                lemma_unique_index(s, x, q);
                            } else {
                                assert(q != p);
                                assert(t[q] == s[q - 1]);
                                lemma_unique_index(s, x, q - 1);
                            }
                        }
                    }
                    assert forall|x: Seq<char>| #[trigger] entries_map(t).contains_key(x) implies
                        entries_map(t)[x] == entries_map(s).insert(k, entry)[x] by {
                        lemma_entry_index(t, x);
                        let q = entry_index(t, x);
                        if x == k {
                            lemma_unique_index(t, x, p as int);
                        } else if q < p {
                            lemma_unique_index(s, x, q);
                        } else {
                            assert(t[q] == s[q - 1]);
                            lemma_unique_index(s, x, q - 1);
                        }
                    }
                }
            }
        }
        self.spells = v;
    }

    /// The entry named `name`, if any.
    pub fn get(&self, name: &str) -> (r: Option<&SpellEntry>)
        ensures
            match r {
                Some(e) => self@.contains_key(name@) && *e == self@[name@] && e.spell.name@
                    == name@,
                None => !self@.contains_key(name@),
            },
    {
        let mut i: usize = 0;
        while i < self.spells.len()
            invariant
                i <= self.spells.len(),
                forall|j: int| 0 <= j < i ==> self.spells@[j].spell.name@ != name@,
            decreases self.spells.len() - i,
        {
            if crate::text::str_eq(self.spells[i].spell.name.as_str(), name) {
                proof {
                    lemma_entry_index_at(self.spells@, name@, i as int);
                }
                return Some(&self.spells[i]);
            }
            i = i + 1;
        }
        proof {
            lemma_entry_index_at(self.spells@, name@, i as int);
        }
        None
    }

    /// The entries, in ascending name order.
    pub fn iter(&self) -> (r: &[SpellEntry])
        ensures
            r@ == self.entries(),
            names_ascend(r@),
            forall|i: int| 0 <= i < r@.len() ==> #[trigger] self@[r@[i].spell.name@] == r@[i]
                && self@.contains_key(r@[i].spell.name@),
            forall|k: Seq<char>| #[trigger] self@.contains_key(k) ==> exists|i: int|
                0 <= i < r@.len() && r@[i].spell.name@ == k,
    {
        proof {
            use_type_invariant(self);
            assert forall|i: int| 0 <= i < self.spells@.len() implies #[trigger] self@[self.spells@[i].spell.name@]
                == self.spells@[i] && self@.contains_key(self.spells@[i].spell.name@) by {
                lemma_unique_index(self.spells@, self.spells@[i].spell.name@, i);
            }
            assert forall|k: Seq<char>| #[trigger] self@.contains_key(k) implies exists|i: int|
                0 <= i < self.spells@.len() && self.spells@[i].spell.name@ == k by {
                lemma_entry_index(self.spells@, k);
            }
        }
        self.spells.as_slice()
    }

    pub fn len(&self) -> (r: usize)
        ensures
            r == self.entries().len(),
    {
        self.spells.len()
    }

    pub fn is_empty(&self) -> (r: bool)
        ensures
            r == (self.entries().len() == 0),
            r == (self@ == Map::<Seq<char>, SpellEntry>::empty()),
    {
        proof {
            if self.spells.len() > 0 {
                assert(self@.contains_key(self.spells@[0].spell.name@));
            } else {
                assert(self@ =~= Map::<Seq<char>, SpellEntry>::empty());
            }
        }
        self.spells.len() == 0
    }

    /// Build a grimoire from a list of spells, all marked embedded. A later
    /// spell replaces an earlier one of the same name.
    pub fn from_spells(spells: Vec<Spell>) -> (g: Grimoire)
        ensures
            g@ == spells_map(spells@),
    {
        let mut g = Grimoire::new();
        let mut rest = spells;
        let ghost all = rest@;
        let n = rest.len();
        assert(all.len() == n);
        let mut i: usize = 0;
        while rest.len() > 0
            invariant
                i + rest.len() == all.len(),
                all.len() <= usize::MAX,
                rest@ == all.skip(i as int),
                g@ == spells_map(all.take(i as int)),
            decreases rest.len(),
        {
            let spell = rest.remove(0);
            proof {
                assert(all.take(i + 1).drop_last() =~= all.take(i as int));
                assert(all.take(i + 1).last() == spell);
                assert(rest@ =~= all.skip(i + 1));
            }
            g.insert(SpellEntry { spell, source: Source::Embedded });
            i = i + 1;
        }
        proof {
            assert(all.take(i as int) =~= all);
        }
        g
    }
}

/// The map that inserting `s` in order, each marked embedded, builds.
pub open spec fn spells_map(s: Seq<Spell>) -> Map<Seq<char>, SpellEntry>
    decreases s.len(),
{
    if s.len() == 0 {
        Map::empty()
    } else {
        spells_map(s.drop_last()).insert(
            s.last().name@,
            SpellEntry { spell: s.last(), source: Source::Embedded },
        )
    }
}

/// What `get` gives back after `insert`: the inserted entry under its
/// spell's name, and under every other name what was there before.
pub proof fn lemma_insert_get(
    before: Map<Seq<char>, SpellEntry>,
    after: Map<Seq<char>, SpellEntry>,
    e: SpellEntry,
    q: Seq<char>,
)
    requires
        after == before.insert(e.spell.name@, e),
    ensures
        q == e.spell.name@ ==> after.contains_key(q) && after[q] == e,
        q != e.spell.name@ ==> after.contains_key(q) == before.contains_key(q) && (before.contains_key(q)
            ==> after[q] == before[q]),
{
}

/// The names that a grimoire holds form a finite set.
pub proof fn lemma_grimoire_finite(g: &Grimoire)
    ensures
        g@.dom().finite(),
{
    let s = g.entries();
    let names = s.map_values(|e: SpellEntry| e.spell.name@);
    assert(g@.dom() =~= names.to_set()) by {
        assert forall|k: Seq<char>| #[trigger] g@.dom().contains(k) implies names.to_set().contains(k) by {
            lemma_entry_index(s, k);
            assert(names[entry_index(s, k)] == k);
        }
        assert forall|k: Seq<char>| #[trigger] names.to_set().contains(k) implies g@.dom().contains(k) by {
            let i = choose|i: int| 0 <= i < names.len() && names[i] == k;
            lemma_entry_index(s, k);
            assert(s[i].spell.name@ == k);
        }
    }
    names.lemma_cardinality_of_set();
}



/// `m` with each spell of `s` inserted in order under its name, marked with
/// the source `src`.
pub open spec fn inserted(m: Map<Seq<char>, SpellEntry>, s: Seq<Spell>, src: Source) -> Map<
    Seq<char>,
    SpellEntry,
>
    decreases s.len(),
{
    if s.len() == 0 {
        m
    } else {
        inserted(m, s.drop_last(), src).insert(s.last().name@, SpellEntry { spell: s.last(), source: src })
    }
}

/// Index of the first embedded file whose stem is not its spell's name, or
/// the number of files.
pub open spec fn first_mismatch(files: Seq<(String, Spell)>) -> int
    decreases files.len(),
{
    if files.len() == 0 {
        0
    } else if files[0].0@ != files[0].1.name@ {
        0
    } else {
        1 + first_mismatch(files.drop_first())
    }
}

proof fn lemma_first_mismatch_at(files: Seq<(String, Spell)>, k: int)
    requires
        0 <= k <= files.len(),
        forall|i: int| 0 <= i < k ==> #[trigger] files[i].0@ == files[i].1.name@,
        k == files.len() || files[k].0@ != files[k].1.name@,
    ensures
        first_mismatch(files) == k,
    decreases k,
{
    if k > 0 {
        assert forall|i: int| 0 <= i < k - 1 implies #[trigger] files.drop_first()[i].0@ == files.drop_first()[i].1.name@ by {
            assert(files.drop_first()[i] == files[i + 1]);
        }
        lemma_first_mismatch_at(files.drop_first(), k - 1);
    }
}

/// The spells of the files, in order.
pub open spec fn file_spells(files: Seq<(String, Spell)>) -> Seq<Spell> {
    files.map_values(|f: (String, Spell)| f.1)
}

/// Why the bundled spells could not be loaded.
#[derive(Debug, Clone)]
pub enum LoadError {
    /// A spell file's stem is not the name its spell declares.
    NameMismatch { file_stem: String, name: String },
}

/// Check a personal spell against the stem of the file it was read from:
/// refused exactly when there is a stem and it is not the spell's name,
/// else the spell unchanged.
pub fn checked_personal(stem: Option<&str>, spell: Spell) -> (r: Result<Spell, LoadError>)
    ensures
        match stem {
            Some(s) => if s@ != spell.name@ {
                r matches Err(LoadError::NameMismatch { file_stem, name }) && file_stem@ == s@ && name@
                    == spell.name@
            } else {
                r matches Ok(sp) && sp == spell
            },
            None => r matches Ok(sp) && sp == spell,
        },
{
    match stem {
        Some(s) => {
            if !str_eq(s, spell.name.as_str()) {
                return Err(LoadError::NameMismatch { file_stem: String::from_str(s), name: spell.name.clone() });
            }
            Ok(spell)
        },
        None => Ok(spell),
    }
}

impl Grimoire {
    /// Build the grimoire of the bundled spells from their files, each given
    /// by its file stem and its parsed spell, in file order. A file whose
    /// stem is not its spell's name is refused: the first such. A later
    /// spell replaces an earlier one of the same name.
    pub fn from_embedded(files: Vec<(String, Spell)>) -> (r: Result<Grimoire, LoadError>)
        ensures
            first_mismatch(files@) < files.len() ==> (r matches Err(LoadError::NameMismatch { file_stem, name })
                && file_stem@ == files@[first_mismatch(files@)].0@ && name@ == files@[first_mismatch(
                files@,
            )].1.name@),
            first_mismatch(files@) == files.len() ==> (r matches Ok(g) && g@ == inserted(
                Map::empty(),
                file_spells(files@),
                Source::Embedded,
            )),
    {
        let mut g = Grimoire::new();
        let mut rest = files;
        let ghost all = rest@;
        let n = rest.len();
        assert(all.len() == n);
        let mut i: usize = 0;
        proof {
            assert(file_spells(all.take(0)) =~= Seq::<Spell>::empty());
        }
        while rest.len() > 0
            invariant
                i + rest.len() == all.len(),
                all.len() <= usize::MAX,
                all == files@,
                rest@ == all.skip(i as int),
                forall|j: int| 0 <= j < i ==> #[trigger] all[j].0@ == all[j].1.name@,
                g@ == inserted(Map::empty(), file_spells(all.take(i as int)), Source::Embedded),
            decreases rest.len(),
        {
            let (stem, spell) = rest.remove(0);
            proof {
                assert(all[i as int] == (stem, spell));
                assert(rest@ =~= all.skip(i + 1));
            }
            if !crate::text::str_eq(stem.as_str(), spell.name.as_str()) {
                proof {
                    lemma_first_mismatch_at(all, i as int);
                }
                return Err(LoadError::NameMismatch { file_stem: stem, name: spell.name });
            }
            proof {
                assert(file_spells(all.take(i + 1)).drop_last() =~= file_spells(all.take(i as int)));
                assert(file_spells(all.take(i + 1)).last() == spell);
            }
            g.insert(SpellEntry { spell, source: Source::Embedded });
            i = i + 1;
        }
        proof {
            lemma_first_mismatch_at(all, i as int);
            assert(all.take(i as int) =~= all);
        }
        Ok(g)
    }

    /// Merge the user's personal spells, in order: each replaces any spell
    /// of its name, bundled or personal.
    pub fn merge_personal(&mut self, spells: Vec<Spell>)
        ensures
            final(self)@ == inserted(old(self)@, spells@, Source::Personal),
    {
        let mut rest = spells;
        let ghost all = rest@;
        let ghost start = self@;
        let n = rest.len();
        assert(all.len() == n);
        let mut i: usize = 0;
        while rest.len() > 0
            invariant
                i + rest.len() == all.len(),
                all.len() <= usize::MAX,
                rest@ == all.skip(i as int),
                self@ == inserted(start, all.take(i as int), Source::Personal),
            decreases rest.len(),
        {
            let spell = rest.remove(0);
            proof {
                assert(all.take(i + 1).drop_last() =~= all.take(i as int));
                assert(all.take(i + 1).last() == spell);
                assert(rest@ =~= all.skip(i + 1));
            }
            self.insert(SpellEntry { spell, source: Source::Personal });
            i = i + 1;
        }
        proof {
            assert(all.take(i as int) =~= all);
        }
    }
}
} // verus!
