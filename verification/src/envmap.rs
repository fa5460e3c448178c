//! A string-to-string map kept in ascending key order: the values of a
//! service's `.env` file and of the user's `[env]` table.
use crate::text::{lemma_lex_equal, lemma_lex_trans, lex, lex_order_str, str_eq, Order};
use vstd::prelude::*;

verus! {

/// Whether the pairs' keys ascend strictly.
pub open spec fn keys_ascend(s: Seq<(String, String)>) -> bool {
    forall|i: int, j: int| 0 <= i < j < s.len() ==> lex(#[trigger] s[i].0@, #[trigger] s[j].0@) == Order::Less
}

/// Index of the first pair with key `k`, or `s.len()`.
pub open spec fn key_index(s: Seq<(String, String)>, k: Seq<char>) -> int
    decreases s.len(),
{
    if s.len() == 0 {
        0
    } else if s[0].0@ == k {
        0
    } else {
        1 + key_index(s.drop_first(), k)
    }
}

pub proof fn lemma_key_index(s: Seq<(String, String)>, k: Seq<char>)
    ensures
        0 <= key_index(s, k) <= s.len(),
        key_index(s, k) < s.len() ==> s[key_index(s, k)].0@ == k,
        forall|i: int| 0 <= i < key_index(s, k) ==> s[i].0@ != k,
    decreases s.len(),
{
    if s.len() > 0 && s[0].0@ != k {
        lemma_key_index(s.drop_first(), k);
        assert forall|i: int| 0 <= i < key_index(s, k) implies s[i].0@ != k by {
            if i > 0 {
                assert(s[i] == s.drop_first()[i - 1]);
            }
        }
    }
}

pub proof fn lemma_key_index_at(s: Seq<(String, String)>, k: Seq<char>, p: int)
    requires
        0 <= p <= s.len(),
        forall|i: int| 0 <= i < p ==> s[i].0@ != k,
        p == s.len() || s[p].0@ == k,
    ensures
        key_index(s, k) == p,
{
    lemma_key_index(s, k);
    if key_index(s, k) < p {
        assert(s[key_index(s, k)].0@ == k);
    }
    if key_index(s, k) > p {
        assert(s[p].0@ != k);
    }
}

/// In ascending pairs, the pair with key `k` is the only one with it.
pub proof fn lemma_unique_index(s: Seq<(String, String)>, k: Seq<char>, p: int)
    requires
        keys_ascend(s),
        0 <= p < s.len(),
        s[p].0@ == k,
    ensures
        key_index(s, k) == p,
{
    assert forall|i: int| 0 <= i < p implies s[i].0@ != k by {
        lemma_lex_equal(s[i].0@, s[p].0@);
    }
    lemma_key_index_at(s, k, p);
}

/// The pairs as a map from key to value.
pub open spec fn pairs_map(s: Seq<(String, String)>) -> Map<Seq<char>, Seq<char>> {
    Map::new(|k: Seq<char>| key_index(s, k) < s.len(), |k: Seq<char>| s[key_index(s, k)].1@)
}

/// The pairs by their characters.
pub open spec fn pair_views(s: Seq<(String, String)>) -> Seq<(Seq<char>, Seq<char>)> {
    s.map_values(|p: (String, String)| (p.0@, p.1@))
}

/// A map from strings to strings, iterated in ascending key order.
#[derive(Debug)]
pub struct EnvMap {
    pairs: Vec<(String, String)>,
}

impl EnvMap {
    #[verifier::type_invariant]
    spec fn ascending(&self) -> bool {
        keys_ascend(self.pairs@)
    }

    /// The pairs in ascending key order.
    pub closed spec fn entries(&self) -> Seq<(String, String)> {
        self.pairs@
    }

    /// The values by key.
    pub open spec fn view(&self) -> Map<Seq<char>, Seq<char>> {
        pairs_map(self.entries())
    }

    /// An empty map.
    pub fn new() -> (m: EnvMap)
        ensures
            m@ == Map::<Seq<char>, Seq<char>>::empty(),
            m.entries().len() == 0,
    {
        let m = EnvMap { pairs: Vec::new() };
        assert(m@ =~= Map::<Seq<char>, Seq<char>>::empty());
        m
    }

    /// Set `key` to `value`, replacing any value it had.
    pub fn insert(&mut self, key: String, value: String)
        ensures
            final(self)@ == old(self)@.insert(key@, value@),
            keys_ascend(final(self).entries()),
    {
        proof {
            use_type_invariant(&*self);
        }
        let entry = (key, value);
        let mut v: Vec<(String, String)> = Vec::new();
        std::mem::swap(&mut v, &mut self.pairs);
        let ghost s = v@;
        let ghost k = entry.0@;
        let mut p: usize = 0;
        while p < v.len() && lex_order_str(v[p].0.as_str(), entry.0.as_str())
            == Order::Less
            invariant
                v@ == s,
                k == entry.0@,
                keys_ascend(s),
                p <= s.len(),
                forall|i: int| 0 <= i < p ==> lex(#[trigger] s[i].0@, k) == Order::Less,
            decreases s.len() - p,
        {
            p = p + 1;
        }
        proof {
            assert forall|i: int| 0 <= i < p implies s[i].0@ != k by {
                lemma_lex_equal(s[i].0@, k);
            }
        }
        if p < v.len() && lex_order_str(v[p].0.as_str(), entry.0.as_str())
            == Order::Equal {
            proof {
                lemma_lex_equal(s[p as int].0@, k);
            }
            v.set(p, entry);
            proof {
                let t = v@;
                assert(keys_ascend(t)) by {
                    assert forall|i: int, j: int| 0 <= i < j < t.len() implies lex(
                        #[trigger] t[i].0@,
                        #[trigger] t[j].0@,
                    ) == Order::Less by {
                        assert(t[i].0@ == s[i].0@);
                        assert(t[j].0@ == s[j].0@);
                    }
                }
                assert(pairs_map(t) =~= pairs_map(s).insert(k, entry.1@)) by {
                    assert forall|x: Seq<char>| #[trigger] pairs_map(t).contains_key(x)
                        <==> pairs_map(s).insert(k, entry.1@).contains_key(x) by {
                        lemma_key_index(t, x);
                        lemma_key_index(s, x);
                        if key_index(s, x) < s.len() {
                            lemma_unique_index(t, x, key_index(s, x));
                        }
                        if key_index(t, x) < t.len() {
                            lemma_unique_index(s, x, key_index(t, x));
                        }
                    }
                    assert forall|x: Seq<char>| #[trigger] pairs_map(t).contains_key(x) implies
                        pairs_map(t)[x] == pairs_map(s).insert(k, entry.1@)[x] by {
                        lemma_key_index(t, x);
                        lemma_unique_index(s, x, key_index(t, x));
                        lemma_unique_index(t, k, p as int);
                    }
                }
            }
        } else {
            proof {
                if p < s.len() {
                    lemma_lex_equal(s[p as int].0@, k);
                }
            }
            v.insert(p, entry);
            proof {
                let t = v@;
                assert(keys_ascend(t)) by {
                    assert forall|i: int, j: int| 0 <= i < j < t.len() implies lex(
                        #[trigger] t[i].0@,
                        #[trigger] t[j].0@,
                    ) == Order::Less by {
                        if j < p {
                        } else if j == p {
                        } else if i < p {
                            assert(t[j] == s[j - 1]);
                        } else if i == p {
                            assert(t[j] == s[j - 1]);
                            if j - 1 > p {
                                lemma_lex_trans(k, s[p as int].0@, s[j - 1].0@);
                            }
                        } else {
                            assert(t[i] == s[i - 1]);
                            assert(t[j] == s[j - 1]);
                        }
                    }
                }
                assert(pairs_map(t) =~= pairs_map(s).insert(k, entry.1@)) by {
                    assert forall|x: Seq<char>| #[trigger] pairs_map(t).contains_key(x)
                        <==> pairs_map(s).insert(k, entry.1@).contains_key(x) by {
                        lemma_key_index(t, x);
                        lemma_key_index(s, x);
                        if key_index(s, x) < s.len() {
                            let q = key_index(s, x);
                            if q < p {
                                assert(t[q] == s[q]);
                                lemma_unique_index(t, x, q);
                            } else {
                                assert(t[q + 1] == s[q]);
                                lemma_unique_index(t, x, q + 1);
                            }
                        }
                        if x == k {
                            lemma_unique_index(t, x, p as int);
                        }
                        if key_index(t, x) < t.len() && x != k {
                            let q = key_index(t, x);
                            if q < p {
                                lemma_unique_index(s, x, q);
                            } else {
                                assert(q != p);
                                assert(t[q] == s[q - 1]);
                                lemma_unique_index(s, x, q - 1);
                            }
                        }
                    }
                    assert forall|x: Seq<char>| #[trigger] pairs_map(t).contains_key(x) implies
                        pairs_map(t)[x] == pairs_map(s).insert(k, entry.1@)[x] by {
                        lemma_key_index(t, x);
                        let q = key_index(t, x);
                        if x == k {
                            lemma_unique_index(t, x, p as int);
                        } else if q < p {
                            lemma_unique_index(s, x, q);
                        } else {
                            assert(t[q] == s[q - 1]);
                            lemma_unique_index(s, x, q - 1);
                        }
                    }
                }
            }
        }
        self.pairs = v;
    }

    /// The value of `key`, if it has one.
    pub fn get(&self, key: &str) -> (r: Option<&String>)
        ensures
            match r {
                Some(v) => self@.contains_key(key@) && v@ == self@[key@],
                None => !self@.contains_key(key@),
            },
    {
        let mut i: usize = 0;
        while i < self.pairs.len()
            invariant
                i <= self.pairs.len(),
                forall|j: int| 0 <= j < i ==> self.pairs@[j].0@ != key@,
            decreases self.pairs.len() - i,
        {
            if str_eq(self.pairs[i].0.as_str(), key) {
                proof {
                    lemma_key_index_at(self.pairs@, key@, i as int);
                }
                return Some(&self.pairs[i].1);
            }
            i = i + 1;
        }
        proof {
            lemma_key_index_at(self.pairs@, key@, i as int);
        }
        None
    }

    /// The pairs, in ascending key order.
    pub fn iter(&self) -> (r: &[(String, String)])
        ensures
            r@ == self.entries(),
            keys_ascend(r@),
            forall|i: int| 0 <= i < r@.len() ==> #[trigger] self@[r@[i].0@] == r@[i].1@ && self@.contains_key(
                r@[i].0@,
            ),
            forall|k: Seq<char>| #[trigger] self@.contains_key(k) ==> exists|i: int|
                0 <= i < r@.len() && r@[i].0@ == k,
    {
        proof {
            use_type_invariant(self);
            assert forall|i: int| 0 <= i < self.pairs@.len() implies #[trigger] self@[self.pairs@[i].0@]
                == self.pairs@[i].1@ && self@.contains_key(self.pairs@[i].0@) by {
                lemma_unique_index(self.pairs@, self.pairs@[i].0@, i);
            }
            assert forall|k: Seq<char>| #[trigger] self@.contains_key(k) implies exists|i: int|
                0 <= i < self.pairs@.len() && self.pairs@[i].0@ == k by {
                lemma_key_index(self.pairs@, k);
            }
        }
        self.pairs.as_slice()
    }

    /// The number of keys.
    pub fn len(&self) -> (r: usize)
        ensures
            r == self.entries().len(),
            r == self@.dom().len(),
    {
        proof {
            use_type_invariant(self);
            lemma_dom_len(self.pairs@);
        }
        self.pairs.len()
    }

    pub fn is_empty(&self) -> (r: bool)
        ensures
            r == (self@ == Map::<Seq<char>, Seq<char>>::empty()),
    {
        proof {
            if self.pairs.len() > 0 {
                assert(self@.contains_key(self.pairs@[0].0@));
            } else {
                assert(self@ =~= Map::<Seq<char>, Seq<char>>::empty());
            }
        }
        self.pairs.len() == 0
    }

    /// Set each key of `other` to its value there, replacing what `self`
    /// had for it.
    pub fn extend(&mut self, other: &EnvMap)
        ensures
            final(self)@ == old(self)@.union_prefer_right(other@),
    {
        proof {
            use_type_invariant(other);
        }
        let ghost base = self@;
        let ghost s = other.pairs@;
        let mut j: usize = 0;
        proof {
            assert(pairs_map(s.take(0)) =~= Map::<Seq<char>, Seq<char>>::empty());
            assert(base.union_prefer_right(pairs_map(s.take(0))) =~= base);
        }
        while j < other.pairs.len()
            invariant
                j <= other.pairs.len(),
                s == other.pairs@,
                keys_ascend(s),
                self@ == base.union_prefer_right(pairs_map(s.take(j as int))),
            decreases other.pairs.len() - j,
        {
            let k = other.pairs[j].0.clone();
            let v = other.pairs[j].1.clone();
            proof {
                lemma_take_push(s, j as int);
            }
            self.insert(k, v);
            proof {
                assert(base.union_prefer_right(pairs_map(s.take(j + 1))) =~= base.union_prefer_right(
                    pairs_map(s.take(j as int)),
                ).insert(s[j as int].0@, s[j as int].1@));
            }
            j = j + 1;
        }
        proof {
            assert(s.take(s.len() as int) =~= s);
        }
    }

    /// A copy of the map.
    pub fn copy(&self) -> (r: EnvMap)
        ensures
            r@ == self@,
            r.entries() == self.entries(),
    {
        proof {
            use_type_invariant(self);
        }
        let mut out: Vec<(String, String)> = Vec::new();
        let mut i: usize = 0;
        while i < self.pairs.len()
            invariant
                i <= self.pairs.len(),
                out@.len() == i,
                forall|j: int| 0 <= j < i ==> #[trigger] out@[j] == self.pairs@[j],
            decreases self.pairs.len() - i,
        {
            let k = self.pairs[i].0.clone();
            let v = self.pairs[i].1.clone();
            out.push((k, v));
            i = i + 1;
        }
        assert(out@ =~= self.pairs@);
        EnvMap { pairs: out }
    }
}

/// Taking one more of ascending pairs sets one more key.
pub proof fn lemma_take_push(s: Seq<(String, String)>, j: int)
    requires
        keys_ascend(s),
        0 <= j < s.len(),
    ensures
        pairs_map(s.take(j + 1)) == pairs_map(s.take(j)).insert(s[j].0@, s[j].1@),
{
    let a = s.take(j);
    let b = s.take(j + 1);
    assert(keys_ascend(a));
    assert(keys_ascend(b));
    assert forall|x: Seq<char>| #[trigger] pairs_map(b).contains_key(x) <==> pairs_map(a).insert(s[j].0@, s[j].1@).contains_key(x) by {
        lemma_key_index(a, x);
        lemma_key_index(b, x);
        if key_index(a, x) < a.len() {
            assert(b[key_index(a, x)] == a[key_index(a, x)]);
            lemma_unique_index(b, x, key_index(a, x));
        }
        if x == s[j].0@ {
            assert(b[j] == s[j]);
            lemma_unique_index(b, x, j);
        }
        if key_index(b, x) < b.len() && key_index(b, x) < j {
            assert(a[key_index(b, x)] == b[key_index(b, x)]);
            lemma_unique_index(a, x, key_index(b, x));
        }
    }
    assert forall|x: Seq<char>| #[trigger] pairs_map(b).contains_key(x) implies pairs_map(b)[x] == pairs_map(a).insert(
        s[j].0@,
        s[j].1@,
    )[x] by {
        lemma_key_index(b, x);
        let q = key_index(b, x);
        if q == j {
            assert(b[j] == s[j]);
        } else {
            assert(a[q] == b[q]);
            lemma_unique_index(a, x, q);
            assert(x != s[j].0@) by {
                lemma_lex_equal(s[q].0@, s[j].0@);
            }
        }
    }
    assert(pairs_map(b) =~= pairs_map(a).insert(s[j].0@, s[j].1@));
}

/// What a lookup gives back after `insert`: the written value under the
/// written key, and under every other key what was there before.
pub proof fn lemma_insert_get(
    before: Map<Seq<char>, Seq<char>>,
    after: Map<Seq<char>, Seq<char>>,
    k: Seq<char>,
    v: Seq<char>,
    q: Seq<char>,
)
    requires
        after == before.insert(k, v),
    ensures
        q == k ==> after.contains_key(q) && after[q] == v,
        q != k ==> after.contains_key(q) == before.contains_key(q) && (before.contains_key(q) ==> after[q]
            == before[q]),
{
}

/// The keys of ascending pairs are as many as the pairs.
proof fn lemma_dom_len(s: Seq<(String, String)>)
    requires
        keys_ascend(s),
    ensures
        pairs_map(s).dom().len() == s.len(),
{
    let keys = s.map_values(|p: (String, String)| p.0@);
    assert(keys.no_duplicates()) by {
        assert forall|i: int, j: int| 0 <= i < keys.len() && 0 <= j < keys.len() && i != j implies keys[i]
            != keys[j] by {
            if i < j {
                lemma_lex_equal(s[i].0@, s[j].0@);
            } else {
                lemma_lex_equal(s[j].0@, s[i].0@);
            }
        }
    }
    assert(pairs_map(s).dom() =~= keys.to_set()) by {
        assert forall|k: Seq<char>| #[trigger] pairs_map(s).dom().contains(k) implies keys.to_set().contains(k) by {
            lemma_key_index(s, k);
            assert(keys[key_index(s, k)] == k);
        }
        assert forall|k: Seq<char>| #[trigger] keys.to_set().contains(k) implies pairs_map(s).dom().contains(k) by {
            let i = choose|i: int| 0 <= i < keys.len() && keys[i] == k;
            lemma_key_index(s, k);
            assert(s[i].0@ == k);
        }
    }
    keys.unique_seq_to_set();
}

} // verus!
