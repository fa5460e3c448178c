//! Character-level text operations: whitespace trimming, splitting and
//! lexical comparison, each stated over the `Seq<char>` view of a string.
use vstd::prelude::*;

verus! {

/// The Unicode `White_Space` property, as `char::is_whitespace` uses it.
pub open spec fn is_ws(c: char) -> bool {
    ||| ('\u{9}' <= c && c <= '\u{d}')
    ||| c == ' '
    ||| c == '\u{85}'
    ||| c == '\u{a0}'
    ||| c == '\u{1680}'
    ||| ('\u{2000}' <= c && c <= '\u{200a}')
    ||| c == '\u{2028}'
    ||| c == '\u{2029}'
    ||| c == '\u{202f}'
    ||| c == '\u{205f}'
    ||| c == '\u{3000}'
}

pub fn is_whitespace(c: char) -> (b: bool)
    ensures
        b == is_ws(c),
{
    ('\u{9}' <= c && c <= '\u{d}') || c == ' ' || c == '\u{85}' || c == '\u{a0}' || c == '\u{1680}'
        || ('\u{2000}' <= c && c <= '\u{200a}') || c == '\u{2028}' || c == '\u{2029}' || c
        == '\u{202f}' || c == '\u{205f}' || c == '\u{3000}'
}

/// `s` without its leading whitespace.
pub open spec fn trim_start(s: Seq<char>) -> Seq<char>
    decreases s.len(),
{
    if s.len() > 0 && is_ws(s[0]) {
        trim_start(s.drop_first())
    } else {
        s
    }
}

/// `s` without its trailing whitespace.
pub open spec fn trim_end(s: Seq<char>) -> Seq<char>
    decreases s.len(),
{
    if s.len() > 0 && is_ws(s.last()) {
        trim_end(s.drop_last())
    } else {
        s
    }
}

/// `s` without leading and trailing whitespace, as `str::trim` gives it.
pub open spec fn trim(s: Seq<char>) -> Seq<char> {
    trim_end(trim_start(s))
}

pub proof fn lemma_trim_start_at(s: Seq<char>, a: int)
    requires
        0 <= a <= s.len(),
        forall|i: int| 0 <= i < a ==> is_ws(#[trigger] s[i]),
        a == s.len() || !is_ws(s[a]),
    ensures
        trim_start(s) == s.subrange(a, s.len() as int),
    decreases a,
{
    if a > 0 {
        assert forall|i: int| 0 <= i < a - 1 implies is_ws(#[trigger] s.drop_first()[i]) by {
            assert(s.drop_first()[i] == s[i + 1]);
        }
        lemma_trim_start_at(s.drop_first(), a - 1);
        assert(s.drop_first().subrange(a - 1, s.drop_first().len() as int) =~= s.subrange(
            a,
            s.len() as int,
        ));
    } else {
        assert(s.subrange(0, s.len() as int) =~= s);
    }
}

pub proof fn lemma_trim_end_at(s: Seq<char>, b: int)
    requires
        0 <= b <= s.len(),
        forall|i: int| b <= i < s.len() ==> is_ws(#[trigger] s[i]),
        b == 0 || !is_ws(s[b - 1]),
    ensures
        trim_end(s) == s.subrange(0, b),
    decreases s.len() - b,
{
    if b < s.len() {
        assert forall|i: int| b <= i < s.drop_last().len() implies is_ws(
            #[trigger] s.drop_last()[i],
        ) by {
            assert(s.drop_last()[i] == s[i]);
        }
        lemma_trim_end_at(s.drop_last(), b);
        assert(s.drop_last().subrange(0, b) =~= s.subrange(0, b));
    } else {
        assert(s.subrange(0, s.len() as int) =~= s);
    }
}

pub proof fn lemma_trim_start_no_ws_first(s: Seq<char>)
    ensures
        trim_start(s).len() > 0 ==> !is_ws(trim_start(s)[0]),
        trim_start(s).len() > 0 ==> trim_end(trim_start(s)).len() > 0,
    decreases s.len(),
{
    if s.len() > 0 && is_ws(s[0]) {
        lemma_trim_start_no_ws_first(s.drop_first());
    }
    let t = trim_start(s);
    if t.len() > 0 {
        lemma_trim_end_keeps_nonws_first(t);
    }
}

proof fn lemma_trim_end_keeps_nonws_first(t: Seq<char>)
    requires
        t.len() > 0,
        !is_ws(t[0]),
    ensures
        trim_end(t).len() > 0,
        trim_end(t)[0] == t[0],
        !is_ws(trim_end(t).last()),
    decreases t.len(),
{
    if is_ws(t.last()) {
        lemma_trim_end_keeps_nonws_first(t.drop_last());
    }
}

/// Trimming twice is trimming once.
pub proof fn lemma_trim_idempotent(s: Seq<char>)
    ensures
        trim(trim(s)) == trim(s),
{
    let t = trim(s);
    lemma_trim_start_no_ws_first(s);
    if t.len() > 0 {
        lemma_trim_end_keeps_nonws_first(trim_start(s));
        lemma_trim_start_at(t, 0);
        assert(t.subrange(0, t.len() as int) =~= t);
        lemma_trim_end_at(t, t.len() as int);
    } else {
        assert(trim_start(t) == t);
    }
}

/// The bounds of the trimmed part of `v`.
pub fn trim_bounds(v: &Vec<char>) -> (r: (usize, usize))
    ensures
        r.0 <= r.1 <= v.len(),
        v@.subrange(r.0 as int, r.1 as int) == trim(v@),
{
    let mut a: usize = 0;
    while a < v.len() && is_whitespace(v[a])
        invariant
            a <= v.len(),
            forall|i: int| 0 <= i < a ==> is_ws(#[trigger] v@[i]),
        decreases v.len() - a,
    {
        a = a + 1;
    }
    let mut b: usize = v.len();
    while b > a && is_whitespace(v[b - 1])
        invariant
            a <= b <= v.len(),
            forall|i: int| b <= i < v.len() ==> is_ws(#[trigger] v@[i]),
        decreases b,
    {
        b = b - 1;
    }
    proof {
        lemma_trim_start_at(v@, a as int);
        let t = v@.subrange(a as int, v.len() as int);
        assert forall|i: int| b - a <= i < t.len() implies is_ws(#[trigger] t[i]) by {
            assert(t[i] == v@[i + a]);
        }
        lemma_trim_end_at(t, b - a);
        assert(t.subrange(0, b - a) =~= v@.subrange(a as int, b as int));
    }
    (a, b)
}

/// The characters of `s`, in order.
pub fn chars_of(s: &str) -> (v: Vec<char>)
    ensures
        v@ == s@,
{
    let mut v: Vec<char> = Vec::new();
    for c in it: s.chars()
        invariant
            it.seq() == s@,
            v@ == it.seq().take(it.index() as int),
    {
        v.push(c);
    }
    v
}

/// An owned copy of the characters `from..to` of `s`.
pub fn substring(s: &str, from: usize, to: usize) -> (r: String)
    requires
        from <= to <= s@.len(),
    ensures
        r@ == s@.subrange(from as int, to as int),
{
    String::from_str(s.substring_char(from, to))
}

pub fn trim_str(s: &str) -> (r: String)
    ensures
        r@ == trim(s@),
{
    let v = chars_of(s);
    let (a, b) = trim_bounds(&v);
    substring(s, a, b)
}


/// Index of the first `c` in `s`, or `s.len()` when there is none.
pub open spec fn find_char(s: Seq<char>, c: char) -> int
    decreases s.len(),
{
    if s.len() == 0 {
        0
    } else if s[0] == c {
        0
    } else {
        1 + find_char(s.drop_first(), c)
    }
}

pub proof fn lemma_find_char(s: Seq<char>, c: char)
    ensures
        0 <= find_char(s, c) <= s.len(),
        find_char(s, c) < s.len() ==> s[find_char(s, c)] == c,
        forall|i: int| 0 <= i < find_char(s, c) ==> s[i] != c,
    decreases s.len(),
{
    if s.len() > 0 && s[0] != c {
        lemma_find_char(s.drop_first(), c);
        assert forall|i: int| 0 <= i < find_char(s, c) implies s[i] != c by {
            if i > 0 {
                assert(s[i] == s.drop_first()[i - 1]);
            }
        }
    }
}

pub proof fn lemma_find_char_at(s: Seq<char>, c: char, k: int)
    requires
        0 <= k <= s.len(),
        forall|i: int| 0 <= i < k ==> s[i] != c,
        k == s.len() || s[k] == c,
    ensures
        find_char(s, c) == k,
{
    lemma_find_char(s, c);
    if find_char(s, c) < k {
        assert(s[find_char(s, c)] == c);
    }
    if find_char(s, c) > k {
        assert(s[k] != c);
    }
}

/// The pieces of `s` between occurrences of `c`, as `str::split` yields them.
pub open spec fn split(s: Seq<char>, c: char) -> Seq<Seq<char>>
    decreases s.len(),
{
    let i = find_char(s, c);
    if 0 <= i < s.len() {
        seq![s.subrange(0, i)] + split(s.subrange(i + 1, s.len() as int), c)
    } else {
        seq![s]
    }
}

/// `s` cut at its first `c`, as `str::split_once` gives it.
pub open spec fn split_once(s: Seq<char>, c: char) -> Option<(Seq<char>, Seq<char>)> {
    let i = find_char(s, c);
    if 0 <= i < s.len() {
        Some((s.subrange(0, i), s.subrange(i + 1, s.len() as int)))
    } else {
        None
    }
}

pub open spec fn string_views(v: Seq<String>) -> Seq<Seq<char>> {
    v.map_values(|x: String| x@)
}

/// The pieces of `s` between occurrences of `c`.
pub fn split_str(s: &str, c: char) -> (r: Vec<String>)
    ensures
        string_views(r@) == split(s@, c),
{
    let v = chars_of(s);
    let ghost sv = s@;
    let mut out: Vec<String> = Vec::new();
    let mut start: usize = 0;
    let mut i: usize = 0;
    proof {
        assert(sv.subrange(0, sv.len() as int) =~= sv);
        assert(string_views(out@) =~= Seq::<Seq<char>>::empty());
        assert(string_views(out@) + split(sv, c) =~= split(sv, c));
    }
    while i < v.len()
        invariant
            v@ == sv,
            sv == s@,
            start <= i <= v.len(),
            forall|j: int| start <= j < i ==> v@[j] != c,
            string_views(out@) + split(sv.subrange(start as int, sv.len() as int), c) == split(
                sv,
                c,
            ),
        decreases v.len() - i,
    {
        if v[i] == c {
            let ghost rest = sv.subrange(start as int, sv.len() as int);
            proof {
                assert forall|j: int| 0 <= j < i - start implies rest[j] != c by {
                    assert(rest[j] == sv[j + start]);
                }
                lemma_find_char_at(rest, c, i - start);
                assert(rest.subrange(0, i - start) =~= sv.subrange(start as int, i as int));
                assert(rest.subrange(i - start + 1, rest.len() as int) =~= sv.subrange(
                    i + 1,
                    sv.len() as int,
                ));
            }
            let piece = substring(s, start, i);
            let ghost before = out@;
            out.push(piece);
            proof {
                assert(string_views(out@) =~= string_views(before).push(piece@));
                assert(string_views(out@) + split(sv.subrange(i + 1, sv.len() as int), c)
                    =~= string_views(before) + split(rest, c));
            }
            start = i + 1;
        }
        i = i + 1;
    }
    let ghost rest = sv.subrange(start as int, sv.len() as int);
    proof {
        assert forall|j: int| 0 <= j < rest.len() implies rest[j] != c by {
            assert(rest[j] == sv[j + start]);
        }
        lemma_find_char_at(rest, c, rest.len() as int);
    }
    let piece = substring(s, start, v.len());
    let ghost before = out@;
    out.push(piece);
    proof {
        assert(string_views(out@) =~= string_views(before).push(piece@));
        assert(string_views(out@) =~= string_views(before) + split(rest, c));
    }
    out
}

/// Where `s` holds `c` first: `Some(i)`, or `None` when it holds none.
pub fn find_char_in(v: &Vec<char>, c: char) -> (r: Option<usize>)
    ensures
        match r {
            Some(i) => i == find_char(v@, c) && i < v.len(),
            None => find_char(v@, c) == v.len(),
        },
{
    let mut i: usize = 0;
    while i < v.len()
        invariant
            i <= v.len(),
            forall|j: int| 0 <= j < i ==> v@[j] != c,
        decreases v.len() - i,
    {
        if v[i] == c {
            proof {
                lemma_find_char_at(v@, c, i as int);
            }
            return Some(i);
        }
        i = i + 1;
    }
    proof {
        lemma_find_char_at(v@, c, i as int);
    }
    None
}

/// `s` cut at its first `c`.
pub fn split_once_str(s: &str, c: char) -> (r: Option<(String, String)>)
    ensures
        match (r, split_once(s@, c)) {
            (Some(p), Some(q)) => p.0@ == q.0 && p.1@ == q.1,
            (None, None) => true,
            _ => false,
        },
{
    let v = chars_of(s);
    match find_char_in(&v, c) {
        Some(i) => Some((substring(s, 0, i), substring(s, i + 1, v.len()))),
        None => None,
    }
}

/// Lexical order of two character sequences, as `str`'s `Ord` gives it
/// (UTF-8 byte order is code-point order).
#[derive(Clone, Copy, Debug, PartialEq, Eq, Structural)]
pub enum Order {
    Less,
    Equal,
    Greater,
}

impl Order {
    pub open spec fn flip(self) -> Order {
        match self {
            Order::Less => Order::Greater,
            Order::Equal => Order::Equal,
            Order::Greater => Order::Less,
        }
    }
}

pub open spec fn int_order(a: int, b: int) -> Order {
    if a < b {
        Order::Less
    } else if a > b {
        Order::Greater
    } else {
        Order::Equal
    }
}

pub open spec fn lex(a: Seq<char>, b: Seq<char>) -> Order
    decreases a.len(),
{
    if a.len() == 0 && b.len() == 0 {
        Order::Equal
    } else if a.len() == 0 {
        Order::Less
    } else if b.len() == 0 {
        Order::Greater
    } else if a[0] < b[0] {
        Order::Less
    } else if a[0] > b[0] {
        Order::Greater
    } else {
        lex(a.drop_first(), b.drop_first())
    }
}

pub proof fn lemma_lex_equal(a: Seq<char>, b: Seq<char>)
    ensures
        (lex(a, b) == Order::Equal) <==> (a == b),
        lex(b, a) == lex(a, b).flip(),
    decreases a.len(),
{
    if a.len() > 0 && b.len() > 0 {
        lemma_lex_equal(a.drop_first(), b.drop_first());
        if a[0] == b[0] && a.drop_first() == b.drop_first() {
            assert(a =~= seq![a[0]] + a.drop_first());
            assert(b =~= seq![b[0]] + b.drop_first());
        }
    } else if a.len() == 0 && b.len() == 0 {
        assert(a =~= b);
    }
}

pub proof fn lemma_lex_trans(a: Seq<char>, b: Seq<char>, c: Seq<char>)
    requires
        lex(a, b) == Order::Less,
        lex(b, c) == Order::Less,
    ensures
        lex(a, c) == Order::Less,
    decreases a.len(),
{
    if a.len() > 0 && b.len() > 0 && c.len() > 0 && a[0] == b[0] && b[0] == c[0] {
        lemma_lex_trans(a.drop_first(), b.drop_first(), c.drop_first());
    }
}

/// Whether the pairs' keys ascend strictly, as a map keyed by strings
/// lists its entries: each key once, in ascending order.
pub open spec fn keys_ascending<T>(s: Seq<(String, T)>) -> bool {
    forall|i: int, j: int| 0 <= i < j < s.len() ==> lex(#[trigger] s[i].0@, #[trigger] s[j].0@) == Order::Less
}

/// Lexical comparison of two character vectors.
pub fn lex_order(a: &Vec<char>, b: &Vec<char>) -> (r: Order)
    ensures
        r == lex(a@, b@),
{
    let mut i: usize = 0;
    proof {
        assert(a@.skip(0) =~= a@);
        assert(b@.skip(0) =~= b@);
    }
    while i < a.len() && i < b.len() && a[i] == b[i]
        invariant
            i <= a.len(),
            i <= b.len(),
            lex(a@, b@) == lex(a@.skip(i as int), b@.skip(i as int)),
        decreases a.len() - i,
    {
        proof {
            assert(a@.skip(i as int).drop_first() =~= a@.skip(i + 1));
            assert(b@.skip(i as int).drop_first() =~= b@.skip(i + 1));
        }
        i = i + 1;
    }
    if i == a.len() && i == b.len() {
        Order::Equal
    } else if i == a.len() {
        Order::Less
    } else if i == b.len() {
        Order::Greater
    } else if a[i] < b[i] {
        Order::Less
    } else {
        Order::Greater
    }
}

/// Lexical comparison of two strings.
pub fn lex_order_str(a: &str, b: &str) -> (r: Order)
    ensures
        r == lex(a@, b@),
{
    let va = chars_of(a);
    let vb = chars_of(b);
    lex_order(&va, &vb)
}

/// Equality of two strings' characters.
pub fn str_eq(a: &str, b: &str) -> (r: bool)
    ensures
        r == (a@ == b@),
{
    let o = lex_order_str(a, b);
    proof {
        lemma_lex_equal(a@, b@);
    }
    o == Order::Equal
}

pub open spec fn is_digit(c: char) -> bool {
    '0' <= c && c <= '9'
}

pub open spec fn digit_value(c: char) -> int {
    c as int - '0' as int
}

/// The number that a run of decimal digits spells.
pub open spec fn digits_value(s: Seq<char>) -> int
    decreases s.len(),
{
    if s.len() == 0 {
        0
    } else {
        digits_value(s.drop_last()) * 10 + digit_value(s.last())
    }
}

/// One or more ASCII digits whose value fits in 64 bits.
pub open spec fn parse_digits(d: Seq<char>) -> Option<u64> {
    if d.len() > 0 && (forall|i: int| 0 <= i < d.len() ==> is_digit(#[trigger] d[i]))
        && digits_value(d) <= u64::MAX {
        Some(digits_value(d) as u64)
    } else {
        None
    }
}

/// `s` without one leading `+`.
pub open spec fn strip_plus(s: Seq<char>) -> Seq<char> {
    if s.len() > 0 && s[0] == '+' {
        s.drop_first()
    } else {
        s
    }
}

/// What `str::parse::<u64>` gives: an optional `+`, then one or more ASCII
/// digits whose value fits in 64 bits.
pub open spec fn parse_u64(s: Seq<char>) -> Option<u64> {
    parse_digits(strip_plus(s))
}

proof fn lemma_digits_value_nonneg(s: Seq<char>)
    requires
        forall|i: int| 0 <= i < s.len() ==> is_digit(#[trigger] s[i]),
    ensures
        digits_value(s) >= 0,
    decreases s.len(),
{
    if s.len() > 0 {
        lemma_digits_value_nonneg(s.drop_last());
        assert(is_digit(s[s.len() - 1]));
    }
}

proof fn lemma_digits_value_grows(s: Seq<char>, k: int)
    requires
        0 <= k <= s.len(),
        forall|i: int| 0 <= i < s.len() ==> is_digit(#[trigger] s[i]),
    ensures
        digits_value(s.take(k)) <= digits_value(s),
    decreases s.len() - k,
{
    if k < s.len() {
        assert(s.drop_last().take(k) =~= s.take(k));
        lemma_digits_value_grows(s.drop_last(), k);
        lemma_digits_value_nonneg(s.drop_last());
        assert(is_digit(s[s.len() - 1]));
    } else {
        assert(s.take(k) =~= s);
    }
}

/// `str::parse::<u64>` on the characters `v`.
pub fn parse_u64_chars(v: &Vec<char>) -> (r: Option<u64>)
    ensures
        r == parse_u64(v@),
{
    let start: usize = if v.len() > 0 && v[0] == '+' {
        1
    } else {
        0
    };
    let ghost d = strip_plus(v@);
    proof {
        assert(d =~= v@.subrange(start as int, v.len() as int));
    }
    if start == v.len() {
        return None;
    }
    let mut acc: u64 = 0;
    let mut i: usize = start;
    while i < v.len()
        invariant
            start <= i <= v.len(),
            start <= 1,
            start == 1 ==> v@.len() > 0 && v@[0] == '+',
            start == 0 ==> !(v@.len() > 0 && v@[0] == '+'),
            d == strip_plus(v@),
            d =~= v@.subrange(start as int, v.len() as int),
            forall|j: int| start <= j < i ==> is_digit(#[trigger] v@[j]),
            acc == digits_value(d.take(i - start)),
        decreases v.len() - i,
    {
        let c = v[i];
        if !('0' <= c && c <= '9') {
            proof {
                assert(d[i - start] == c);
                assert(!is_digit(d[i - start]));
            }
            return None;
        }
        let dv: u64 = (c as u32 - '0' as u32) as u64;
        proof {
            assert(d.take(i + 1 - start).drop_last() =~= d.take(i - start));
            assert(d.take(i + 1 - start).last() == c);
        }
        match acc.checked_mul(10) {
            Some(m) => match m.checked_add(dv) {
                Some(n) => {
                    acc = n;
                },
                None => {
                    proof {
                        overflow_means_none(d, i + 1 - start, v, start);
                    }
                    return None;
                },
            },
            None => {
                proof {
                    lemma_digits_value_nonneg(d.take(i - start));
                    overflow_means_none(d, i + 1 - start, v, start);
                }
                return None;
            },
        }
        i = i + 1;
    }
    proof {
        assert(d.take(i - start) =~= d);
    }
    Some(acc)
}

proof fn overflow_means_none(d: Seq<char>, k: int, v: &Vec<char>, start: usize)
    requires
        0 < k <= d.len(),
        digits_value(d.take(k)) > u64::MAX,
        forall|j: int| 0 <= j < k ==> is_digit(#[trigger] d[j]),
        d =~= v@.subrange(start as int, v.len() as int),
        d == strip_plus(v@),
        start <= 1,
        start == 1 ==> v@.len() > 0 && v@[0] == '+',
        start == 0 ==> !(v@.len() > 0 && v@[0] == '+'),
    ensures
        parse_u64(v@) is None,
{
    if start == 1 {
        assert(d =~= v@.drop_first());
    } else {
        assert(d =~= v@);
    }
    if forall|i: int| 0 <= i < d.len() ==> is_digit(#[trigger] d[i]) {
        lemma_digits_value_grows(d, k);
        assert(digits_value(d) > u64::MAX);
    }
}

/// Index of the first `k` in `s`, or `s.len()`.
pub open spec fn index_in(s: Seq<Seq<char>>, k: Seq<char>) -> int
    decreases s.len(),
{
    if s.len() == 0 {
        0
    } else if s[0] == k {
        0
    } else {
        1 + index_in(s.drop_first(), k)
    }
}

pub proof fn lemma_index_in(s: Seq<Seq<char>>, k: Seq<char>)
    ensures
        0 <= index_in(s, k) <= s.len(),
        index_in(s, k) < s.len() ==> s[index_in(s, k)] == k,
        forall|i: int| 0 <= i < index_in(s, k) ==> s[i] != k,
        (index_in(s, k) < s.len()) == s.contains(k),
    decreases s.len(),
{
    if s.len() > 0 && s[0] != k {
        lemma_index_in(s.drop_first(), k);
        assert forall|i: int| 0 <= i < index_in(s, k) implies s[i] != k by {
            if i > 0 {
                assert(s[i] == s.drop_first()[i - 1]);
            }
        }
        if s.contains(k) {
            let i = choose|i: int| 0 <= i < s.len() && s[i] == k;
            assert(s.drop_first()[i - 1] == k);
        }
        if s.drop_first().contains(k) {
            let i = choose|i: int| 0 <= i < s.drop_first().len() && s.drop_first()[i] == k;
            assert(s[i + 1] == k);
        }
    } else if s.len() > 0 {
        assert(s.contains(s[0]));
    }
}

/// In a sequence without duplicates, `s[p]` is found at `p`.
pub proof fn lemma_index_in_unique(s: Seq<Seq<char>>, p: int)
    requires
        s.no_duplicates(),
        0 <= p < s.len(),
    ensures
        index_in(s, s[p]) == p,
{
    lemma_index_in(s, s[p]);
    let q = index_in(s, s[p]);
    if q != p {
        assert(s[q] == s[p]);
    }
}

/// Where `k` first occurs in `v`, if it does.
pub fn position(v: &Vec<String>, k: &str) -> (r: Option<usize>)
    ensures
        match r {
            Some(i) => i == index_in(string_views(v@), k@) && i < v.len(),
            None => index_in(string_views(v@), k@) == v.len() && !string_views(v@).contains(k@),
        },
{
    let ghost s = string_views(v@);
    let mut i: usize = 0;
    while i < v.len()
        invariant
            s == string_views(v@),
            i <= v.len(),
            forall|j: int| 0 <= j < i ==> s[j] != k@,
        decreases v.len() - i,
    {
        if str_eq(v[i].as_str(), k) {
            proof {
                assert(s[i as int] == v@[i as int]@);
                lemma_index_in(s, k@);
                if index_in(s, k@) < i {
                    assert(s[index_in(s, k@)] == k@);
                }
            }
            return Some(i);
        }
        i = i + 1;
    }
    proof {
        lemma_index_in(s, k@);
    }
    None
}

/// Whether the sequence ascends strictly in lexical order.
pub open spec fn ascending(s: Seq<Seq<char>>) -> bool {
    forall|i: int, j: int| 0 <= i < j < s.len() ==> lex(#[trigger] s[i], #[trigger] s[j]) == Order::Less
}

pub proof fn lemma_ascending_no_dup(s: Seq<Seq<char>>)
    requires
        ascending(s),
    ensures
        s.no_duplicates(),
{
    assert forall|i: int, j: int| 0 <= i < s.len() && 0 <= j < s.len() && i != j implies s[i]
        != s[j] by {
        if i < j {
            lemma_lex_equal(s[i], s[j]);
        } else {
            lemma_lex_equal(s[j], s[i]);
        }
    }
}

/// Inserting `k` where everything before is less and everything after is
/// greater keeps a sequence ascending.
pub proof fn lemma_insert_ascending(s: Seq<Seq<char>>, p: int, k: Seq<char>)
    requires
        ascending(s),
        0 <= p <= s.len(),
        forall|j: int| 0 <= j < p ==> lex(#[trigger] s[j], k) == Order::Less,
        p < s.len() ==> lex(k, s[p]) == Order::Less,
    ensures
        ascending(s.insert(p, k)),
{
    let t = s.insert(p, k);
    assert forall|i: int, j: int| 0 <= i < j < t.len() implies lex(#[trigger] t[i], #[trigger] t[j])
        == Order::Less by {
        if j < p {
        } else if j == p {
        } else if i < p {
            assert(t[j] == s[j - 1]);
        } else if i == p {
            assert(t[j] == s[j - 1]);
            if j - 1 > p {
                lemma_lex_trans(k, s[p], s[j - 1]);
            }
        } else {
            assert(t[i] == s[i - 1]);
            assert(t[j] == s[j - 1]);
        }
    }
}

/// Where `k` belongs in an ascending sequence that does not hold it.
pub proof fn lemma_ascending_position(s: Seq<Seq<char>>, k: Seq<char>) -> (p: int)
    requires
        ascending(s),
        !s.contains(k),
    ensures
        0 <= p <= s.len(),
        forall|j: int| 0 <= j < p ==> lex(#[trigger] s[j], k) == Order::Less,
        p < s.len() ==> lex(k, s[p]) == Order::Less,
    decreases s.len(),
{
    if s.len() == 0 {
        0
    } else {
        let last = s.last();
        lemma_lex_equal(last, k);
        if lex(last, k) == Order::Less {
            assert forall|j: int| 0 <= j < s.len() implies lex(#[trigger] s[j], k) == Order::Less by {
                if j < s.len() - 1 {
                    lemma_lex_trans(s[j], last, k);
                }
            }
            s.len() as int
        } else {
            assert(!s.drop_last().contains(k)) by {
                if s.drop_last().contains(k) {
                    let a = choose|a: int| 0 <= a < s.drop_last().len() && s.drop_last()[a] == k;
                    assert(s[a] == k);
                }
            }
            assert(lex(k, last) == Order::Less) by {
                assert(last != k) by {
                    assert(s[s.len() - 1] == last);
                }
            }
            let p = lemma_ascending_position(s.drop_last(), k);
            assert forall|j: int| 0 <= j < p implies lex(#[trigger] s[j], k) == Order::Less by {
                assert(s[j] == s.drop_last()[j]);
            }
            if p < s.len() - 1 {
                assert(s[p] == s.drop_last()[p]);
            }
            p
        }
    }
}

/// Two ascending sequences with the same elements are the same sequence.
pub proof fn lemma_ascending_unique(p: Seq<Seq<char>>, q: Seq<Seq<char>>)
    requires
        ascending(p),
        ascending(q),
        p.to_set() == q.to_set(),
    ensures
        p == q,
    decreases p.len(),
{
    if p.len() == 0 {
        if q.len() > 0 {
            assert(q.to_set().contains(q[0]));
        }
        assert(p =~= q);
    } else {
        assert(p.to_set().contains(p[0]));
        assert(q.len() > 0);
        assert(q.to_set().contains(q[0]));
        let j = choose|j: int| 0 <= j < q.len() && q[j] == p[0];
        let k = choose|k: int| 0 <= k < p.len() && p[k] == q[0];
        if j > 0 && k > 0 {
            lemma_lex_equal(q[0], p[0]);
        } else if j > 0 {
            lemma_lex_equal(q[0], q[j]);
        } else if k > 0 {
            lemma_lex_equal(p[0], p[k]);
        }
        assert(p[0] == q[0]);
        lemma_ascending_no_dup(p);
        lemma_ascending_no_dup(q);
        let p1 = p.drop_first();
        let q1 = q.drop_first();
        assert(p1.to_set() =~= q1.to_set()) by {
            assert forall|x: Seq<char>| p1.to_set().contains(x) implies q1.to_set().contains(x) by {
                let a = choose|a: int| 0 <= a < p1.len() && p1[a] == x;
                assert(p[a + 1] == x);
                assert(p.to_set().contains(x));
                let b = choose|b: int| 0 <= b < q.len() && q[b] == x;
                if b == 0 {
                    assert(p[0] == p[a + 1]);
                }
                assert(q1[b - 1] == x);
            }
            assert forall|x: Seq<char>| q1.to_set().contains(x) implies p1.to_set().contains(x) by {
                let a = choose|a: int| 0 <= a < q1.len() && q1[a] == x;
                assert(q[a + 1] == x);
                assert(q.to_set().contains(x));
                let b = choose|b: int| 0 <= b < p.len() && p[b] == x;
                if b == 0 {
                    assert(q[0] == q[a + 1]);
                }
                assert(p1[b - 1] == x);
            }
        }
        lemma_ascending_unique(p1, q1);
        assert(p =~= q) by {
            assert forall|i: int| 0 <= i < p.len() implies p[i] == q[i] by {
                if i > 0 {
                    assert(p[i] == p1[i - 1]);
                    assert(q[i] == q1[i - 1]);
                }
            }
        }
    }
}

/// The ascending sequence of the names in `s`.
pub open spec fn ascending_names(s: Set<Seq<char>>) -> Seq<Seq<char>> {
    choose|q: Seq<Seq<char>>| ascending(q) && q.to_set() == s
}


pub open spec fn str_views(s: Seq<&str>) -> Seq<Seq<char>> {
    s.map_values(|x: &str| x@)
}

/// `s` in double quotes, as a message shows a name.
pub open spec fn quoted(s: Seq<char>) -> Seq<char> {
    seq!['"'] + s + seq!['"']
}

/// Append `t` in double quotes to `s`.
pub fn push_quoted(s: &mut String, t: &str)
    ensures
        final(s)@ == old(s)@ + quoted(t@),
{
    s.append("\"");
    s.append(t);
    s.append("\"");
    proof {
        reveal_strlit("\"");
        assert(final(s)@ =~= old(s)@ + quoted(t@));
    }
}

/// The items in double quotes between square brackets, separated by
/// commas, as `{:?}` shows a list of strings.
pub open spec fn quoted_list(items: Seq<Seq<char>>) -> Seq<char> {
    seq!['['] + join(items.map_values(|x: Seq<char>| quoted(x)), ", "@) + seq![']']
}

/// Append the items as a quoted list to `s`.
pub fn push_quoted_list(s: &mut String, items: &Vec<String>)
    ensures
        final(s)@ == old(s)@ + quoted_list(string_views(items@)),
{
    let mut qs: Vec<String> = Vec::new();
    let mut i: usize = 0;
    while i < items.len()
        invariant
            i <= items.len(),
            string_views(qs@) == string_views(items@).take(i as int).map_values(|x: Seq<char>| quoted(x)),
        decreases items.len() - i,
    {
        let mut q = String::new();
        push_quoted(&mut q, items[i].as_str());
        let ghost before = qs@;
        qs.push(q);
        proof {
            assert(string_views(qs@) =~= string_views(before).push(q@));
            assert(string_views(items@).take(i + 1) =~= string_views(items@).take(i as int).push(items@[i as int]@));
            assert(q@ =~= quoted(items@[i as int]@));
        }
        i = i + 1;
    }
    proof {
        assert(string_views(items@).take(items.len() as int) =~= string_views(items@));
    }
    s.append("[");
    s.append(join_strings(&qs, ", ").as_str());
    s.append("]");
    proof {
        reveal_strlit("[");
        reveal_strlit("]");
        assert(final(s)@ =~= old(s)@ + quoted_list(string_views(items@)));
    }
}

/// The pieces joined with `sep` between each two, as `join` on a slice of
/// strings gives them.
pub open spec fn join(parts: Seq<Seq<char>>, sep: Seq<char>) -> Seq<char>
    decreases parts.len(),
{
    if parts.len() == 0 {
        seq![]
    } else if parts.len() == 1 {
        parts[0]
    } else {
        join(parts.drop_last(), sep) + sep + parts.last()
    }
}

/// The string literals `parts` joined with `sep`.
pub fn join_strs(parts: &[&str], sep: &str) -> (r: String)
    ensures
        r@ == join(str_views(parts@), sep@),
{
    let mut out = String::new();
    let mut i: usize = 0;
    while i < parts.len()
        invariant
            i <= parts.len(),
            out@ == join(str_views(parts@).take(i as int), sep@),
        decreases parts.len() - i,
    {
        if i > 0 {
            out.append(sep);
        }
        out.append(parts[i]);
        proof {
            let t = str_views(parts@).take(i + 1);
            assert(t.drop_last() =~= str_views(parts@).take(i as int));
            if i == 0 {
                assert(out@ =~= t[0]);
            }
        }
        i = i + 1;
    }
    proof {
        assert(str_views(parts@).take(parts.len() as int) =~= str_views(parts@));
    }
    out
}

/// The strings `parts` joined with `sep`.
pub fn join_strings(parts: &Vec<String>, sep: &str) -> (r: String)
    ensures
        r@ == join(string_views(parts@), sep@),
{
    let mut out = String::new();
    let mut i: usize = 0;
    while i < parts.len()
        invariant
            i <= parts.len(),
            out@ == join(string_views(parts@).take(i as int), sep@),
        decreases parts.len() - i,
    {
        if i > 0 {
            out.append(sep);
        }
        out.append(parts[i].as_str());
        proof {
            let t = string_views(parts@).take(i + 1);
            assert(t.drop_last() =~= string_views(parts@).take(i as int));
            if i == 0 {
                assert(out@ =~= t[0]);
            }
        }
        i = i + 1;
    }
    proof {
        assert(string_views(parts@).take(parts.len() as int) =~= string_views(parts@));
    }
    out
}

/// `s` with each apostrophe written as `'\''`: the body of a single-quoted
/// shell word that stands for `s`.
pub open spec fn quote_body(s: Seq<char>) -> Seq<char>
    decreases s.len(),
{
    if s.len() == 0 {
        seq![]
    } else if s.last() == '\'' {
        quote_body(s.drop_last()) + seq!['\'', '\\', '\'', '\'']
    } else {
        quote_body(s.drop_last()).push(s.last())
    }
}

/// `s` as one single-quoted shell word.
pub open spec fn shell_word(s: Seq<char>) -> Seq<char> {
    seq!['\''] + quote_body(s) + seq!['\'']
}

/// `p` put before the text read, if any was.
pub open spec fn prepend(p: Seq<char>, o: Option<Seq<char>>) -> Option<Seq<char>> {
    match o {
        Some(r) => Some(p + r),
        None => None,
    }
}

/// The text that a POSIX shell reads from the word `w`, made of plain
/// characters, backslash-escaped characters and single-quoted stretches;
/// `quoted` says whether a single quote is open. `None` when a quote is
/// left open at the end.
pub open spec fn shell_read(w: Seq<char>, quoted: bool) -> Option<Seq<char>>
    decreases w.len(),
{
    if w.len() == 0 {
        if quoted {
            None
        } else {
            Some(seq![])
        }
    } else if quoted {
        if w[0] == '\'' {
            shell_read(w.drop_first(), false)
        } else {
            prepend(seq![w[0]], shell_read(w.drop_first(), true))
        }
    } else if w[0] == '\'' {
        shell_read(w.drop_first(), true)
    } else if w[0] == '\\' && w.len() >= 2 {
        prepend(seq![w[1]], shell_read(w.subrange(2, w.len() as int), false))
    } else {
        prepend(seq![w[0]], shell_read(w.drop_first(), false))
    }
}

/// Inside an open quote, the quoted body of `s` reads as `s`.
proof fn lemma_read_body(s: Seq<char>, w: Seq<char>)
    ensures
        shell_read(quote_body(s) + w, true) == prepend(s, shell_read(w, true)),
    decreases s.len(),
{
    if s.len() == 0 {
        assert(quote_body(s) + w =~= w);
        match shell_read(w, true) {
            Some(r) => assert(s + r =~= r),
            None => {},
        }
    } else {
        let s0 = s.drop_last();
        let c = s.last();
        let chunk = if c == '\'' {
            seq!['\'', '\\', '\'', '\'']
        } else {
            seq![c]
        };
        assert(quote_body(s) == quote_body(s0) + chunk);
        assert(quote_body(s) + w =~= quote_body(s0) + (chunk + w));
        lemma_read_body(s0, chunk + w);
        if c == '\'' {
            let a = chunk + w;
            assert(a.drop_first() =~= seq!['\\', '\'', '\''] + w);
            let b = a.drop_first();
            assert(b.subrange(2, b.len() as int) =~= seq!['\''] + w);
            let d = b.subrange(2, b.len() as int);
            assert(d.drop_first() =~= w);
            assert(d[0] == '\'');
            assert(shell_read(d, false) == shell_read(w, true));
            assert(b[0] == '\\' && b[1] == '\'');
            assert(shell_read(b, false) == prepend(seq!['\''], shell_read(d, false)));
            assert(a[0] == '\'');
            assert(shell_read(a, true) == shell_read(b, false));
            assert(shell_read(a, true) == prepend(seq!['\''], shell_read(w, true)));
        } else {
            let a = chunk + w;
            assert(a.drop_first() =~= w);
            assert(shell_read(a, true) == prepend(seq![c], shell_read(w, true)));
        }
        match shell_read(w, true) {
            Some(r) => {
                assert(s0 + (seq![c] + r) =~= s + r);
            },
            None => {},
        }
    }
}

/// Quoting is safe: a POSIX shell reads the quoted word of `s` as exactly
/// `s`, apostrophes included.
pub proof fn lemma_shell_word_reads_back(s: Seq<char>)
    ensures
        shell_read(shell_word(s), false) == Some(s),
{
    let w = shell_word(s);
    assert(w.drop_first() =~= quote_body(s) + seq!['\'']);
    lemma_read_body(s, seq!['\'']);
    let q = seq!['\''];
    assert(q.drop_first() =~= Seq::<char>::empty());
    assert(shell_read(q.drop_first(), false) == Some(Seq::<char>::empty()));
    assert(shell_read(q, true) == Some(Seq::<char>::empty()));
    assert(s + Seq::<char>::empty() =~= s);
}

/// Quote `s` as one single-quoted shell word: safe inside a `bash -c`
/// snippet whatever `s` holds.
pub fn quote_word(s: &str) -> (r: String)
    ensures
        r@ == shell_word(s@),
{
    let v = chars_of(s);
    let mut out = String::from_str("'");
    proof {
        reveal_strlit("'");
        assert(out@ =~= seq!['\''] + quote_body(s@.take(0)));
    }
    let mut i: usize = 0;
    while i < v.len()
        invariant
            i <= v.len(),
            v@ == s@,
            out@ == seq!['\''] + quote_body(s@.take(i as int)),
        decreases v.len() - i,
    {
        let ghost before = out@;
        proof {
            assert(s@.take(i + 1).drop_last() =~= s@.take(i as int));
        }
        if v[i] == '\'' {
            out.append("'\\''");
            proof {
                reveal_strlit("'\\''");
                assert(out@ =~= seq!['\''] + quote_body(s@.take(i + 1)));
            }
        } else {
            out.append(s.substring_char(i, i + 1));
            proof {
                assert(s@.subrange(i as int, i + 1) =~= seq![s@[i as int]]);
                assert(out@ =~= seq!['\''] + quote_body(s@.take(i + 1)));
            }
        }
        i = i + 1;
    }
    out.append("'");
    proof {
        reveal_strlit("'");
        assert(s@.take(v.len() as int) =~= s@);
        assert(out@ =~= shell_word(s@));
    }
    out
}

/// A copy of the strings `v`.
pub fn copy_strings(v: &Vec<String>) -> (r: Vec<String>)
    ensures
        string_views(r@) == string_views(v@),
{
    let mut out: Vec<String> = Vec::new();
    let mut i: usize = 0;
    while i < v.len()
        invariant
            i <= v.len(),
            string_views(out@) == string_views(v@).take(i as int),
        decreases v.len() - i,
    {
        let x = v[i].clone();
        let ghost before = out@;
        out.push(x);
        proof {
            assert(string_views(out@) =~= string_views(before).push(x@));
            assert(string_views(v@).take(i + 1) =~= string_views(v@).take(i as int).push(
                v@[i as int]@,
            ));
        }
        i = i + 1;
    }
    assert(string_views(v@).take(i as int) =~= string_views(v@));
    out
}


/// `s` without the leading whitespace, as `str::trim_start` gives it.
pub fn trim_start_str(s: &str) -> (r: String)
    ensures
        r@ == trim_start(s@),
{
    let v = chars_of(s);
    let mut a: usize = 0;
    while a < v.len() && is_whitespace(v[a])
        invariant
            a <= v.len(),
            v@ == s@,
            forall|i: int| 0 <= i < a ==> is_ws(#[trigger] v@[i]),
        decreases v.len() - a,
    {
        a = a + 1;
    }
    proof {
        lemma_trim_start_at(v@, a as int);
    }
    substring(s, a, v.len())
}

/// `s` without leading copies of `c`.
pub open spec fn strip_start(s: Seq<char>, c: char) -> Seq<char>
    decreases s.len(),
{
    if s.len() > 0 && s[0] == c {
        strip_start(s.drop_first(), c)
    } else {
        s
    }
}

/// `s` without trailing copies of `c`.
pub open spec fn strip_end(s: Seq<char>, c: char) -> Seq<char>
    decreases s.len(),
{
    if s.len() > 0 && s.last() == c {
        strip_end(s.drop_last(), c)
    } else {
        s
    }
}

/// `s` without leading and trailing copies of `c`, as `str::trim_matches`
/// with a character gives it.
pub open spec fn strip_char(s: Seq<char>, c: char) -> Seq<char> {
    strip_end(strip_start(s, c), c)
}

proof fn lemma_strip_start_at(s: Seq<char>, c: char, a: int)
    requires
        0 <= a <= s.len(),
        forall|i: int| 0 <= i < a ==> #[trigger] s[i] == c,
        a == s.len() || s[a] != c,
    ensures
        strip_start(s, c) == s.subrange(a, s.len() as int),
    decreases a,
{
    if a > 0 {
        assert forall|i: int| 0 <= i < a - 1 implies #[trigger] s.drop_first()[i] == c by {
            assert(s.drop_first()[i] == s[i + 1]);
        }
        lemma_strip_start_at(s.drop_first(), c, a - 1);
        assert(s.drop_first().subrange(a - 1, s.drop_first().len() as int) =~= s.subrange(
            a,
            s.len() as int,
        ));
    } else {
        assert(s.subrange(0, s.len() as int) =~= s);
    }
}

proof fn lemma_strip_end_at(s: Seq<char>, c: char, b: int)
    requires
        0 <= b <= s.len(),
        forall|i: int| b <= i < s.len() ==> #[trigger] s[i] == c,
        b == 0 || s[b - 1] != c,
    ensures
        strip_end(s, c) == s.subrange(0, b),
    decreases s.len() - b,
{
    if b < s.len() {
        assert forall|i: int| b <= i < s.drop_last().len() implies #[trigger] s.drop_last()[i] == c by {
            assert(s.drop_last()[i] == s[i]);
        }
        lemma_strip_end_at(s.drop_last(), c, b);
        assert(s.drop_last().subrange(0, b) =~= s.subrange(0, b));
    } else {
        assert(s.subrange(0, s.len() as int) =~= s);
    }
}

/// `s` without leading and trailing copies of `c`.
pub fn strip_char_str(s: &str, c: char) -> (r: String)
    ensures
        r@ == strip_char(s@, c),
{
    let v = chars_of(s);
    let mut a: usize = 0;
    while a < v.len() && v[a] == c
        invariant
            a <= v.len(),
            forall|i: int| 0 <= i < a ==> #[trigger] v@[i] == c,
        decreases v.len() - a,
    {
        a = a + 1;
    }
    let mut b: usize = v.len();
    while b > a && v[b - 1] == c
        invariant
            a <= b <= v.len(),
            forall|i: int| b <= i < v.len() ==> #[trigger] v@[i] == c,
        decreases b,
    {
        b = b - 1;
    }
    proof {
        lemma_strip_start_at(v@, c, a as int);
        let t = v@.subrange(a as int, v.len() as int);
        assert forall|i: int| b - a <= i < t.len() implies #[trigger] t[i] == c by {
            assert(t[i] == v@[i + a]);
        }
        lemma_strip_end_at(t, c, b - a);
        assert(t.subrange(0, b - a) =~= v@.subrange(a as int, b as int));
    }
    substring(s, a, b)
}

/// The words of `s` after the word `cur` begun so far: maximal runs of
/// characters that are not whitespace.
pub open spec fn words_from(s: Seq<char>, cur: Seq<char>) -> Seq<Seq<char>>
    decreases s.len(),
{
    let done: Seq<Seq<char>> = if cur.len() > 0 {
        seq![cur]
    } else {
        seq![]
    };
    if s.len() == 0 {
        done
    } else if is_ws(s[0]) {
        done + words_from(s.drop_first(), seq![])
    } else {
        words_from(s.drop_first(), cur.push(s[0]))
    }
}

/// The whitespace-separated words of `s`, as `str::split_whitespace` yields
/// them.
pub open spec fn words(s: Seq<char>) -> Seq<Seq<char>> {
    words_from(s, seq![])
}

/// The whitespace-separated words of `s`.
pub fn split_words(s: &str) -> (r: Vec<String>)
    ensures
        string_views(r@) == words(s@),
{
    let v = chars_of(s);
    let ghost sv = s@;
    let mut out: Vec<String> = Vec::new();
    let mut start: usize = 0;
    let mut i: usize = 0;
    proof {
        assert(sv.skip(0) =~= sv);
        assert(sv.subrange(0, 0) =~= Seq::<char>::empty());
        assert(string_views(out@) =~= Seq::<Seq<char>>::empty());
        assert(string_views(out@) + words(sv) =~= words(sv));
    }
    while i < v.len()
        invariant
            v@ == sv,
            sv == s@,
            start <= i <= v.len(),
            string_views(out@) + words_from(sv.skip(i as int), sv.subrange(start as int, i as int))
                == words(sv),
        decreases v.len() - i,
    {
        let ghost cur = sv.subrange(start as int, i as int);
        let ghost before = string_views(out@);
        proof {
            assert(sv.skip(i as int).drop_first() =~= sv.skip(i + 1));
            assert(sv.skip(i as int)[0] == v@[i as int]);
        }
        if is_whitespace(v[i]) {
            if start < i {
                let w = substring(s, start, i);
                out.push(w);
                proof {
                    assert(string_views(out@) =~= before.push(cur));
                    assert(string_views(out@) + words_from(sv.skip(i + 1), seq![]) =~= before + (
                    seq![cur] + words_from(sv.skip(i + 1), seq![])));
                }
            } else {
                proof {
                    assert(cur =~= Seq::<char>::empty());
                    assert(seq![] + words_from(sv.skip(i + 1), seq![]) =~= words_from(
                        sv.skip(i + 1),
                        seq![],
                    ));
                }
            }
            start = i + 1;
            proof {
                assert(sv.subrange(start as int, i + 1) =~= Seq::<char>::empty());
            }
        } else {
            proof {
                assert(sv.subrange(start as int, i + 1) =~= cur.push(v@[i as int]));
            }
        }
        i = i + 1;
    }
    let ghost cur = sv.subrange(start as int, i as int);
    let ghost before = string_views(out@);
    proof {
        assert(sv.skip(i as int) =~= Seq::<char>::empty());
    }
    if start < i {
        let w = substring(s, start, i);
        out.push(w);
        proof {
            assert(string_views(out@) =~= before.push(cur));
            assert(before + seq![cur] =~= before.push(cur));
        }
    } else {
        proof {
            assert(cur =~= Seq::<char>::empty());
            assert(before + Seq::<Seq<char>>::empty() =~= before);
        }
    }
    out
}

/// Whether `t` occurs in `s` at index `i`.
pub open spec fn occurs_at(s: Seq<char>, t: Seq<char>, i: int) -> bool {
    0 <= i && i + t.len() <= s.len() && s.subrange(i, i + t.len()) == t
}

/// Where `t` first occurs in `s`, as `str::find` with a string gives it.
#[verifier::opaque]
pub open spec fn find_sub(s: Seq<char>, t: Seq<char>) -> Option<int> {
    if exists|i: int| occurs_at(s, t, i) {
        Some(choose|i: int| occurs_at(s, t, i) && forall|j: int| 0 <= j < i ==> !occurs_at(s, t, j))
    } else {
        None
    }
}

/// Where `t` first occurs in `s`.
pub fn find_sub_str(s: &str, t: &str) -> (r: Option<usize>)
    ensures
        match r {
            Some(i) => find_sub(s@, t@) == Some(i as int) && occurs_at(s@, t@, i as int),
            None => find_sub(s@, t@) is None,
        },
{
    reveal(find_sub);
    let v = chars_of(s);
    let w = chars_of(t);
    if w.len() > v.len() {
        proof {
            assert forall|i: int| !occurs_at(s@, t@, i) by {}
        }
        return None;
    }
    let mut i: usize = 0;
    while i <= v.len() - w.len()
        invariant
            v@ == s@,
            w@ == t@,
            w.len() <= v.len(),
            i <= v.len() - w.len() + 1,
            forall|j: int| 0 <= j < i ==> !occurs_at(s@, t@, j),
        decreases v.len() - i,
    {
        let mut k: usize = 0;
        while k < w.len() && v[i + k] == w[k]
            invariant
                k <= w.len(),
                i + w.len() <= v.len(),
                forall|m: int| 0 <= m < k ==> v@[i + m] == w@[m],
            decreases w.len() - k,
        {
            k = k + 1;
        }
        if k == w.len() {
            proof {
                reveal(find_sub);
                assert(s@.subrange(i as int, i + t@.len()) =~= t@);
                assert(occurs_at(s@, t@, i as int));
                let c = choose|c: int| occurs_at(s@, t@, c) && forall|j: int| 0 <= j < c ==> !occurs_at(s@, t@, j);
                if c < i {
                } else if c > i {
                }
            }
            return Some(i);
        }
        proof {
            if occurs_at(s@, t@, i as int) {
                assert(s@.subrange(i as int, i + t@.len())[k as int] == v@[i + k]);
            }
        }
        i = i + 1;
    }
    proof {
        assert forall|j: int| !occurs_at(s@, t@, j) by {
            if 0 <= j && j + t@.len() <= s@.len() {
                assert(j < i);
            }
        }
    }
    None
}

/// `s` without leading copies of `c`, as `str::trim_start_matches` with a
/// character gives it.
pub fn strip_start_str(s: &str, c: char) -> (r: String)
    ensures
        r@ == strip_start(s@, c),
{
    let v = chars_of(s);
    let mut a: usize = 0;
    while a < v.len() && v[a] == c
        invariant
            a <= v.len(),
            v@ == s@,
            forall|i: int| 0 <= i < a ==> #[trigger] v@[i] == c,
        decreases v.len() - a,
    {
        a = a + 1;
    }
    proof {
        lemma_strip_start_at(v@, c, a as int);
    }
    substring(s, a, v.len())
}

/// `l` without one trailing carriage return.
pub open spec fn drop_cr(l: Seq<char>) -> Seq<char> {
    if l.len() > 0 && l.last() == '\r' {
        l.drop_last()
    } else {
        l
    }
}

/// Each of `ls` without one trailing carriage return.
pub open spec fn drop_cr_all(ls: Seq<Seq<char>>) -> Seq<Seq<char>> {
    ls.map_values(|l: Seq<char>| drop_cr(l))
}

/// The lines of `s`, as `str::lines` yields them: split at `\n`, a `\r`
/// before a `\n` dropped, and no empty line after a final `\n`.
pub open spec fn lines(s: Seq<char>) -> Seq<Seq<char>> {
    let p = split(s, '\n');
    if s.len() == 0 {
        seq![]
    } else if s.last() == '\n' {
        drop_cr_all(p.drop_last())
    } else {
        drop_cr_all(p.drop_last()).push(p.last())
    }
}

/// `l` without one trailing carriage return.
fn drop_cr_str(l: &str) -> (r: String)
    ensures
        r@ == drop_cr(l@),
{
    let v = chars_of(l);
    if v.len() > 0 && v[v.len() - 1] == '\r' {
        proof {
            assert(l@.subrange(0, l@.len() - 1) =~= l@.drop_last());
        }
        substring(l, 0, v.len() - 1)
    } else {
        proof {
            assert(l@.subrange(0, l@.len() as int) =~= l@);
        }
        substring(l, 0, v.len())
    }
}

/// The lines of `s`.
pub fn lines_of(s: &str) -> (r: Vec<String>)
    ensures
        string_views(r@) == lines(s@),
{
    let v = chars_of(s);
    let pieces = split_str(s, '\n');
    let ghost p = split(s@, '\n');
    let mut out: Vec<String> = Vec::new();
    if v.len() == 0 {
        proof {
            assert(string_views(out@) =~= lines(s@));
        }
        return out;
    }
    proof {
        lemma_split_nonempty(s@, '\n');
    }
    let n = pieces.len() - 1;
    let mut i: usize = 0;
    while i < n
        invariant
            i <= n,
            n + 1 == pieces.len(),
            string_views(pieces@) == p,
            string_views(out@) == drop_cr_all(p.drop_last().take(i as int)),
        decreases n - i,
    {
        let l = drop_cr_str(pieces[i].as_str());
        let ghost before = out@;
        out.push(l);
        proof {
            assert(p[i as int] == pieces@[i as int]@);
            assert(string_views(out@) =~= string_views(before).push(l@));
            assert(drop_cr_all(p.drop_last().take(i + 1)) =~= drop_cr_all(p.drop_last().take(i as int)).push(
                drop_cr(p[i as int]),
            ));
        }
        i = i + 1;
    }
    proof {
        assert(p.drop_last().take(n as int) =~= p.drop_last());
    }
    if v[v.len() - 1] != '\n' {
        let last = pieces[n].clone();
        let ghost before = out@;
        out.push(last);
        proof {
            assert(p.last() == pieces@[n as int]@);
            assert(string_views(out@) =~= string_views(before).push(last@));
        }
    }
    out
}

/// Splitting yields at least one piece.
pub proof fn lemma_split_nonempty(s: Seq<char>, c: char)
    ensures
        split(s, c).len() >= 1,
    decreases s.len(),
{
    lemma_find_char(s, c);
    let i = find_char(s, c);
    if 0 <= i < s.len() {
        lemma_split_nonempty(s.subrange(i + 1, s.len() as int), c);
    }
}

/// `s` without trailing copies of `c`, as `str::trim_end_matches` with a
/// character gives it.
pub fn strip_end_str(s: &str, c: char) -> (r: String)
    ensures
        r@ == strip_end(s@, c),
{
    let v = chars_of(s);
    let mut b: usize = v.len();
    while b > 0 && v[b - 1] == c
        invariant
            b <= v.len(),
            v@ == s@,
            forall|i: int| b <= i < v.len() ==> #[trigger] v@[i] == c,
        decreases b,
    {
        b = b - 1;
    }
    proof {
        lemma_strip_end_at(v@, c, b as int);
    }
    substring(s, 0, b)
}

/// The decimal digit character of `d`.
pub open spec fn digit_char(d: int) -> char {
    seq!['0', '1', '2', '3', '4', '5', '6', '7', '8', '9'][d]
}

/// `n` written in decimal, as `{}` formats an unsigned integer.
pub open spec fn decimal(n: nat) -> Seq<char>
    decreases n,
{
    if n < 10 {
        seq![digit_char(n as int)]
    } else {
        decimal(n / 10).push(digit_char((n % 10) as int))
    }
}

/// `x` written in decimal, with a leading `-` when negative.
pub open spec fn int_text(x: int) -> Seq<char> {
    if x < 0 {
        seq!['-'] + decimal((-x) as nat)
    } else {
        decimal(x as nat)
    }
}

/// `n` written in decimal.
pub fn u64_text(n: u64) -> (r: String)
    ensures
        r@ == decimal(n as nat),
    decreases n,
{
    let digits = "0123456789";
    assert(digits@ == seq!['0', '1', '2', '3', '4', '5', '6', '7', '8', '9']) by {
        reveal_strlit("0123456789");
        assert(digits@ =~= seq!['0', '1', '2', '3', '4', '5', '6', '7', '8', '9']);
    }
    let d = (n % 10) as usize;
    let last = digits.substring_char(d, d + 1);
    proof {
        assert(last@ =~= seq![digit_char(d as int)]);
    }
    if n < 10 {
        String::from_str(last)
    } else {
        let mut s = u64_text(n / 10);
        s.append(last);
        s
    }
}

/// `n` written in decimal.
pub fn usize_text(n: usize) -> (r: String)
    ensures
        r@ == decimal(n as nat),
{
    u64_text(n as u64)
}

/// `x` written in decimal, as `{}` formats a signed integer.
pub fn i32_text(x: i32) -> (r: String)
    ensures
        r@ == int_text(x as int),
{
    if x < 0 {
        let m = (-(x as i64)) as u64;
        let mut s = String::from_str("-");
        proof {
            reveal_strlit("-");
        }
        s.append(u64_text(m).as_str());
        s
    } else {
        u64_text(x as u64)
    }
}

/// Splitting `t + u` where `t` ends with the separator: the pieces of `t`
/// but its empty last one, then the pieces of `u`.
pub proof fn lemma_split_concat(t: Seq<char>, u: Seq<char>, c: char)
    requires
        t.len() > 0,
        t.last() == c,
    ensures
        split(t + u, c) == split(t, c).drop_last() + split(u, c),
    decreases t.len(),
{
    lemma_find_char(t, c);
    let i = find_char(t, c);
    assert(i < t.len()) by {
        if i >= t.len() {
            assert(t[t.len() - 1] == c);
        }
    }
    let s = t + u;
    assert forall|j: int| 0 <= j < i implies s[j] != c by {
        assert(s[j] == t[j]);
    }
    lemma_find_char_at(s, c, i);
    let t2 = t.subrange(i + 1, t.len() as int);
    assert(s.subrange(0, i) =~= t.subrange(0, i));
    assert(s.subrange(i + 1, s.len() as int) =~= t2 + u);
    lemma_split_nonempty(t2, c);
    if t2.len() == 0 {
        assert(t2 + u =~= u);
        lemma_find_char(t2, c);
        assert(split(t2, c) =~= seq![t2]);
        assert(split(t, c).drop_last() =~= seq![t.subrange(0, i)]);
    } else {
        assert(t2.last() == c);
        lemma_split_concat(t2, u, c);
        assert(split(t, c).drop_last() =~= seq![t.subrange(0, i)] + split(t2, c).drop_last());
    }
}

/// The pieces of `x` followed by one separator, where `x` holds none: `x`
/// and an empty piece.
pub proof fn lemma_split_line(x: Seq<char>, c: char)
    requires
        forall|i: int| 0 <= i < x.len() ==> x[i] != c,
    ensures
        split(x.push(c), c) == seq![x, Seq::<char>::empty()],
{
    let s = x.push(c);
    assert forall|j: int| 0 <= j < x.len() implies s[j] != c by {
        assert(s[j] == x[j]);
    }
    lemma_find_char_at(s, c, x.len() as int);
    assert(s.subrange(0, x.len() as int) =~= x);
    let e = s.subrange(x.len() as int + 1, s.len() as int);
    assert(e =~= Seq::<char>::empty());
    lemma_find_char(e, c);
    assert(split(e, c) =~= seq![e]);
}

/// Appending a line `x` and its newline to text that is empty or ends with
/// a newline appends one line: `x` without a trailing carriage return.
pub proof fn lemma_lines_push(t: Seq<char>, x: Seq<char>)
    requires
        t.len() == 0 || t.last() == '\n',
        forall|i: int| 0 <= i < x.len() ==> x[i] != '\n',
    ensures
        lines(t + x.push('\n')) == lines(t).push(drop_cr(x)),
{
    let u = x.push('\n');
    lemma_split_line(x, '\n');
    let s = t + u;
    assert(s.len() > 0 && s.last() == '\n');
    if t.len() == 0 {
        assert(s =~= u);
        assert(split(u, '\n').drop_last() =~= seq![x]);
        assert(drop_cr_all(seq![x]) =~= seq![drop_cr(x)]);
        assert(lines(t) =~= Seq::<Seq<char>>::empty());
        assert(lines(t).push(drop_cr(x)) =~= seq![drop_cr(x)]);
    } else {
        lemma_split_concat(t, u, '\n');
        lemma_split_nonempty(t, '\n');
        let p = split(t, '\n').drop_last();
        assert(split(s, '\n').drop_last() =~= p.push(x));
        assert(drop_cr_all(p.push(x)) =~= drop_cr_all(p).push(drop_cr(x)));
    }
}
} // verus!
