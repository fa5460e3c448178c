//! Version comparison: dot-separated components, numeric where both sides
//! are numbers and lexical otherwise, with a `-` pre-release suffix sorting
//! below the same version without one.
use crate::text::{
    lemma_find_char_at, find_char,
    chars_of, lemma_lex_equal, lex, lex_order, parse_u64, parse_u64_chars, split, split_once,
    split_once_str, split_str, string_views, int_order, Order,
};
use std::cmp::Ordering;
use vstd::prelude::*;

verus! {

/// A version cut at its first `-` into the main part and the pre-release.
pub open spec fn split_pre_spec(v: Seq<char>) -> (Seq<char>, Option<Seq<char>>) {
    match split_once(v, '-') {
        Some((main, pre)) => (main, Some(pre)),
        None => (v, None),
    }
}

/// The order of two components: numeric when both parse as `u64`,
/// lexical otherwise.
pub open spec fn component_order(a: Seq<char>, b: Seq<char>) -> Order {
    match (parse_u64(a), parse_u64(b)) {
        (Some(x), Some(y)) => int_order(x as int, y as int),
        _ => lex(a, b),
    }
}

/// The order of two component lists: the first unequal component decides;
/// a list that runs out first is the lesser.
pub open spec fn parts_order(xs: Seq<Seq<char>>, ys: Seq<Seq<char>>) -> Order
    decreases xs.len(),
{
    if xs.len() == 0 && ys.len() == 0 {
        Order::Equal
    } else if xs.len() == 0 {
        Order::Less
    } else if ys.len() == 0 {
        Order::Greater
    } else {
        let o = component_order(xs[0], ys[0]);
        if o == Order::Equal {
            parts_order(xs.drop_first(), ys.drop_first())
        } else {
            o
        }
    }
}

/// The order of two dot-separated component strings.
pub open spec fn dotted_order(a: Seq<char>, b: Seq<char>) -> Order {
    parts_order(split(a, '.'), split(b, '.'))
}

/// The order of two versions.
pub open spec fn version_order(a: Seq<char>, b: Seq<char>) -> Order {
    let (am, ap) = split_pre_spec(a);
    let (bm, bp) = split_pre_spec(b);
    let m = dotted_order(am, bm);
    if m != Order::Equal {
        m
    } else {
        match (ap, bp) {
            (None, None) => Order::Equal,
            (None, Some(_)) => Order::Greater,
            (Some(_), None) => Order::Less,
            (Some(x), Some(y)) => dotted_order(x, y),
        }
    }
}

/// Compare two version strings.
///
/// Splits on `.` and `-`. Numeric components compare numerically; non-numeric
/// compare lexically. A trailing pre-release component (after `-`) sorts
/// lower than the same version without one (e.g. `1.0-rc1` < `1.0`).
pub fn compare(a: &str, b: &str) -> (r: Ordering)
    ensures
        (r == Ordering::Less) == (version_order(a@, b@) == Order::Less),
        (r == Ordering::Equal) == (version_order(a@, b@) == Order::Equal),
        (r == Ordering::Greater) == (version_order(a@, b@) == Order::Greater),
{
    match version_compare(a, b) {
        Order::Less => Ordering::Less,
        Order::Equal => Ordering::Equal,
        Order::Greater => Ordering::Greater,
    }
}

/// The order of two versions, as an [`Order`].
pub fn version_compare(a: &str, b: &str) -> (r: Order)
    ensures
        r == version_order(a@, b@),
{
    let (a_main, a_pre) = split_pre(a);
    let (b_main, b_pre) = split_pre(b);
    let m = compare_components(a_main.as_str(), b_main.as_str());
    if m != Order::Equal {
        return m;
    }
    match (a_pre, b_pre) {
        (None, None) => Order::Equal,
        (None, Some(_)) => Order::Greater,
        (Some(_), None) => Order::Less,
        (Some(x), Some(y)) => compare_components(x.as_str(), y.as_str()),
    }
}

/// Cut a version at its first `-`.
pub fn split_pre(v: &str) -> (r: (String, Option<String>))
    ensures
        r.0@ == split_pre_spec(v@).0,
        match (r.1, split_pre_spec(v@).1) {
            (Some(x), Some(y)) => x@ == y,
            (None, None) => true,
            _ => false,
        },
{
    match split_once_str(v, '-') {
        Some((main, pre)) => (main, Some(pre)),
        None => (String::from_str(v), None),
    }
}

/// Compare two dot-separated component strings.
pub fn compare_components(a: &str, b: &str) -> (r: Order)
    ensures
        r == dotted_order(a@, b@),
{
    let ai = split_str(a, '.');
    let bi = split_str(b, '.');
    let ghost xs = string_views(ai@);
    let ghost ys = string_views(bi@);
    let mut i: usize = 0;
    proof {
        assert(xs.skip(0) =~= xs);
        assert(ys.skip(0) =~= ys);
    }
    loop
        invariant
            xs == string_views(ai@),
            ys == string_views(bi@),
            xs == split(a@, '.'),
            ys == split(b@, '.'),
            i <= ai.len(),
            i <= bi.len(),
            parts_order(xs, ys) == parts_order(xs.skip(i as int), ys.skip(i as int)),
        decreases ai.len() - i,
    {
        if i == ai.len() && i == bi.len() {
            return Order::Equal;
        } else if i == ai.len() {
            return Order::Less;
        } else if i == bi.len() {
            return Order::Greater;
        }
        let o = compare_one(ai[i].as_str(), bi[i].as_str());
        proof {
            assert(xs.skip(i as int)[0] == ai@[i as int]@);
            assert(ys.skip(i as int)[0] == bi@[i as int]@);
            assert(xs.skip(i as int).drop_first() =~= xs.skip(i + 1));
            assert(ys.skip(i as int).drop_first() =~= ys.skip(i + 1));
        }
        if o != Order::Equal {
            return o;
        }
        i = i + 1;
    }
}

/// Compare one component: numerically when both are `u64` numbers,
/// lexically otherwise.
pub fn compare_one(a: &str, b: &str) -> (r: Order)
    ensures
        r == component_order(a@, b@),
{
    let av = chars_of(a);
    let bv = chars_of(b);
    match (parse_u64_chars(&av), parse_u64_chars(&bv)) {
        (Some(x), Some(y)) => {
            if x < y {
                Order::Less
            } else if x > y {
                Order::Greater
            } else {
                Order::Equal
            }
        },
        _ => lex_order(&av, &bv),
    }
}

pub proof fn lemma_component_order_props(a: Seq<char>, b: Seq<char>)
    ensures
        component_order(a, a) == Order::Equal,
        component_order(b, a) == component_order(a, b).flip(),
{
    lemma_lex_equal(a, b);
    lemma_lex_equal(a, a);
}

pub proof fn lemma_parts_order_props(xs: Seq<Seq<char>>, ys: Seq<Seq<char>>)
    ensures
        parts_order(xs, xs) == Order::Equal,
        parts_order(ys, xs) == parts_order(xs, ys).flip(),
    decreases xs.len(),
{
    if xs.len() > 0 {
        lemma_component_order_props(xs[0], xs[0]);
        lemma_parts_order_props(xs.drop_first(), xs.drop_first());
    }
    if xs.len() > 0 && ys.len() > 0 {
        lemma_component_order_props(xs[0], ys[0]);
        lemma_parts_order_props(xs.drop_first(), ys.drop_first());
    }
}

/// Every version is equal to itself.
pub proof fn lemma_compare_reflexive(a: Seq<char>)
    ensures
        version_order(a, a) == Order::Equal,
{
    let (m, p) = split_pre_spec(a);
    lemma_parts_order_props(split(m, '.'), split(m, '.'));
    if let Some(x) = p {
        lemma_parts_order_props(split(x, '.'), split(x, '.'));
    }
}

/// Swapping the two versions flips the result.
pub proof fn lemma_compare_antisymmetric(a: Seq<char>, b: Seq<char>)
    ensures
        version_order(b, a) == version_order(a, b).flip(),
{
    let (am, ap) = split_pre_spec(a);
    let (bm, bp) = split_pre_spec(b);
    lemma_parts_order_props(split(am, '.'), split(bm, '.'));
    if let (Some(x), Some(y)) = (ap, bp) {
        lemma_parts_order_props(split(x, '.'), split(y, '.'));
    }
}

/// A version with a pre-release suffix sorts below the same version without
/// one: `m-p` < `m` whenever `m` holds no `-`.
pub proof fn lemma_pre_release_lower(m: Seq<char>, p: Seq<char>)
    requires
        forall|i: int| 0 <= i < m.len() ==> m[i] != '-',
    ensures
        version_order(m + seq!['-'] + p, m) == Order::Less,
{
    let v = m + seq!['-'] + p;
    assert forall|i: int| 0 <= i < m.len() implies v[i] != '-' by {
        assert(v[i] == m[i]);
    }
    lemma_find_char_at(v, '-', m.len() as int);
    lemma_find_char_at(m, '-', m.len() as int);
    assert(v.subrange(0, m.len() as int) =~= m);
    lemma_parts_order_props(split(m, '.'), split(m, '.'));
}

} // verus!
