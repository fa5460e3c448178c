//! Requirements on spells: a spell name plus version comparators that must
//! all hold, as written in manifests and in `requires:` lists.
use crate::text::{
    chars_of, is_whitespace, is_ws, lemma_find_char_at, push_quoted, quoted, lemma_split_concat, lemma_split_line, lemma_trim_end_at,
    lemma_trim_start_at, lemma_trim_start_no_ws_first, split, split_str, string_views, substring, trim, trim_bounds,
    trim_end, trim_start, trim_str,
};
use crate::version::{lemma_compare_reflexive, version_compare, version_order};
use crate::text::Order;
use vstd::prelude::*;

verus! {

/// One requirement on a spell: name plus an optional list of version
/// comparators that must all hold.
#[derive(Debug, Clone, PartialEq, Eq)]
pub struct Requirement {
    pub name: String,
    pub constraints: Vec<Constraint>,
}

#[derive(Debug, Clone, PartialEq, Eq)]
pub struct Constraint {
    pub op: Op,
    pub version: String,
}

#[derive(Debug, Clone, Copy, PartialEq, Eq, Structural)]
pub enum Op {
    Lt,
    Le,
    Eq,
    Ne,
    Ge,
    Gt,
}

impl View for Constraint {
    type V = (Op, Seq<char>);

    open spec fn view(&self) -> (Op, Seq<char>) {
        (self.op, self.version@)
    }
}

pub open spec fn constraint_views(cs: Seq<Constraint>) -> Seq<(Op, Seq<char>)> {
    cs.map_values(|c: Constraint| c@)
}

impl View for Requirement {
    type V = (Seq<char>, Seq<(Op, Seq<char>)>);

    open spec fn view(&self) -> (Seq<char>, Seq<(Op, Seq<char>)>) {
        (self.name@, constraint_views(self.constraints@))
    }
}

/// Why a requirement did not parse.
#[derive(Debug, Clone, PartialEq, Eq)]
pub enum ConstraintError {
    /// The requirement is blank.
    Empty,
    /// The requirement starts with an operator, not a spell name.
    MissingName { requirement: String },
    /// The spell name does not start with a lowercase ASCII letter.
    NameStart { name: String },
    /// The spell name holds a character outside `[a-z0-9-]`.
    NameChars { name: String },
    /// A comparator has an operator but no version.
    MissingVersion { constraint: String },
    /// A comparator's version starts with another operator character.
    UnrecognizedOperator { constraint: String },
    /// A comparator does not start with one of `<`, `<=`, `==`, `!=`, `>=`, `>`.
    NoOperator { constraint: String },
}

/// [`ConstraintError`] with its strings taken by their characters.
pub enum ParseFailure {
    Empty,
    MissingName(Seq<char>),
    NameStart(Seq<char>),
    NameChars(Seq<char>),
    MissingVersion(Seq<char>),
    UnrecognizedOperator(Seq<char>),
    NoOperator(Seq<char>),
}

impl View for ConstraintError {
    type V = ParseFailure;

    open spec fn view(&self) -> ParseFailure {
        match self {
            ConstraintError::Empty => ParseFailure::Empty,
            ConstraintError::MissingName { requirement } => ParseFailure::MissingName(
                requirement@,
            ),
            ConstraintError::NameStart { name } => ParseFailure::NameStart(name@),
            ConstraintError::NameChars { name } => ParseFailure::NameChars(name@),
            ConstraintError::MissingVersion { constraint } => ParseFailure::MissingVersion(
                constraint@,
            ),
            ConstraintError::UnrecognizedOperator { constraint } =>
                ParseFailure::UnrecognizedOperator(constraint@),
            ConstraintError::NoOperator { constraint } => ParseFailure::NoOperator(constraint@),
        }
    }
}

/// The operator spelled by `s`, if any.
pub open spec fn op_of(s: Seq<char>) -> Option<Op> {
    if s.len() == 1 && s[0] == '<' {
        Some(Op::Lt)
    } else if s.len() == 1 && s[0] == '>' {
        Some(Op::Gt)
    } else if s.len() == 2 && s[1] == '=' && s[0] == '<' {
        Some(Op::Le)
    } else if s.len() == 2 && s[1] == '=' && s[0] == '=' {
        Some(Op::Eq)
    } else if s.len() == 2 && s[1] == '=' && s[0] == '!' {
        Some(Op::Ne)
    } else if s.len() == 2 && s[1] == '=' && s[0] == '>' {
        Some(Op::Ge)
    } else {
        None
    }
}

/// Whether a version that compares to the bound as `o` passes `op`.
pub open spec fn op_holds(op: Op, o: Order) -> bool {
    match op {
        Op::Lt => o == Order::Less,
        Op::Le => o != Order::Greater,
        Op::Eq => o == Order::Equal,
        Op::Ne => o != Order::Equal,
        Op::Ge => o != Order::Less,
        Op::Gt => o == Order::Greater,
    }
}

/// Whether `observed` meets the comparator `c`.
pub open spec fn constraint_holds(c: (Op, Seq<char>), observed: Seq<char>) -> bool {
    op_holds(c.0, version_order(observed, c.1))
}

/// Whether `observed` meets every comparator of `cs`.
pub open spec fn all_hold(cs: Seq<(Op, Seq<char>)>, observed: Seq<char>) -> bool {
    forall|i: int| 0 <= i < cs.len() ==> constraint_holds(#[trigger] cs[i], observed)
}

impl Op {
    pub fn from_str(s: &str) -> (r: Option<Op>)
        ensures
            r == op_of(s@),
    {
        let v = chars_of(s);
        assert(v@.subrange(0, v@.len() as int) =~= s@);
        op_from_chars(&v, 0, v.len())
    }
}

/// The operator spelled by `v[from..to]`, if any.
fn op_from_chars(v: &Vec<char>, from: usize, to: usize) -> (r: Option<Op>)
    requires
        from <= to <= v.len(),
    ensures
        r == op_of(v@.subrange(from as int, to as int)),
{
    let ghost s = v@.subrange(from as int, to as int);
    let n = to - from;
    if n == 1 {
        let c = v[from];
        assert(s[0] == c);
        if c == '<' {
            Some(Op::Lt)
        } else if c == '>' {
            Some(Op::Gt)
        } else {
            None
        }
    } else if n == 2 {
        let c0 = v[from];
        let c1 = v[from + 1];
        assert(s[0] == c0 && s[1] == c1);
        if c1 == '=' && c0 == '<' {
            Some(Op::Le)
        } else if c1 == '=' && c0 == '=' {
            Some(Op::Eq)
        } else if c1 == '=' && c0 == '!' {
            Some(Op::Ne)
        } else if c1 == '=' && c0 == '>' {
            Some(Op::Ge)
        } else {
            None
        }
    } else {
        None
    }
}

impl Constraint {
    pub fn satisfied_by(&self, observed: &str) -> (r: bool)
        ensures
            r == constraint_holds(self@, observed@),
    {
        let o = version_compare(observed, self.version.as_str());
        match self.op {
            Op::Lt => o == Order::Less,
            Op::Le => o != Order::Greater,
            Op::Eq => o == Order::Equal,
            Op::Ne => o != Order::Equal,
            Op::Ge => o != Order::Less,
            Op::Gt => o == Order::Greater,
        }
    }
}

impl Requirement {
    pub fn satisfied_by(&self, observed: &str) -> (r: bool)
        ensures
            r == all_hold(self@.1, observed@),
    {
        let mut i: usize = 0;
        while i < self.constraints.len()
            invariant
                i <= self.constraints.len(),
                forall|j: int| 0 <= j < i ==> constraint_holds(#[trigger] self@.1[j], observed@),
            decreases self.constraints.len() - i,
        {
            if !self.constraints[i].satisfied_by(observed) {
                assert(self@.1[i as int] == self.constraints@[i as int]@);
                return false;
            }
            i = i + 1;
        }
        true
    }
}

pub open spec fn is_lower(c: char) -> bool {
    'a' <= c && c <= 'z'
}

pub open spec fn is_name_char(c: char) -> bool {
    ('a' <= c && c <= 'z') || ('0' <= c && c <= '9') || c == '-'
}

/// Whether `c` ends a spell name inside a requirement.
pub open spec fn ends_name(c: char) -> bool {
    is_ws(c) || c == '<' || c == '>' || c == '=' || c == '!' || c == ','
}

/// Index of the first character of `s` that ends a name, or `s.len()`.
pub open spec fn name_end(s: Seq<char>) -> int
    decreases s.len(),
{
    if s.len() == 0 {
        0
    } else if ends_name(s[0]) {
        0
    } else {
        1 + name_end(s.drop_first())
    }
}

pub proof fn lemma_name_end_at(s: Seq<char>, k: int)
    requires
        0 <= k <= s.len(),
        forall|i: int| 0 <= i < k ==> !ends_name(#[trigger] s[i]),
        k == s.len() || ends_name(s[k]),
    ensures
        name_end(s) == k,
    decreases k,
{
    if k > 0 {
        assert forall|i: int| 0 <= i < k - 1 implies !ends_name(#[trigger] s.drop_first()[i]) by {
            assert(s.drop_first()[i] == s[i + 1]);
        }
        lemma_name_end_at(s.drop_first(), k - 1);
    }
}

/// What name validation decides of `name`: `None` when it is a valid spell
/// name (`[a-z][a-z0-9-]*`), else the failure.
pub open spec fn name_check(name: Seq<char>) -> Option<ParseFailure> {
    if !(name.len() > 0 && is_lower(name[0])) {
        Some(ParseFailure::NameStart(name))
    } else if !(forall|i: int| 0 <= i < name.len() ==> is_name_char(#[trigger] name[i])) {
        Some(ParseFailure::NameChars(name))
    } else {
        None
    }
}

pub open spec fn valid_name(name: Seq<char>) -> bool {
    name_check(name) is None
}

/// What parsing one trimmed, non-blank comparator gives.
pub open spec fn piece_parse(p: Seq<char>) -> Result<(Op, Seq<char>), ParseFailure> {
    let two = if p.len() >= 2 {
        op_of(p.subrange(0, 2))
    } else {
        None
    };
    let one = if p.len() >= 1 {
        op_of(p.subrange(0, 1))
    } else {
        None
    };
    let (op, k) = if two is Some {
        (two, 2int)
    } else {
        (one, 1int)
    };
    match op {
        Some(o) => {
            let version = trim(p.subrange(k, p.len() as int));
            if version.len() == 0 {
                Err(ParseFailure::MissingVersion(p))
            } else if version[0] == '<' || version[0] == '>' || version[0] == '=' || version[0]
                == '!' {
                Err(ParseFailure::UnrecognizedOperator(p))
            } else {
                Ok((o, version))
            }
        },
        None => Err(ParseFailure::NoOperator(p)),
    }
}

/// The comparators that the comma-separated pieces `raw` spell: each piece
/// trimmed, blank pieces skipped, the first failing piece deciding.
pub open spec fn pieces_parse(raw: Seq<Seq<char>>) -> Result<
    Seq<(Op, Seq<char>)>,
    ParseFailure,
>
    decreases raw.len(),
{
    if raw.len() == 0 {
        Ok(seq![])
    } else {
        let p = trim(raw[0]);
        let tail = pieces_parse(raw.drop_first());
        if p.len() == 0 {
            tail
        } else {
            match piece_parse(p) {
                Err(e) => Err(e),
                Ok(c) => match tail {
                    Err(e) => Err(e),
                    Ok(cs) => Ok(seq![c] + cs),
                },
            }
        }
    }
}

/// The name part and the rest of a trimmed requirement.
pub open spec fn name_part(t: Seq<char>) -> Seq<char> {
    t.subrange(0, name_end(t))
}

pub open spec fn rest_part(t: Seq<char>) -> Seq<char> {
    t.subrange(name_end(t), t.len() as int)
}

/// What `parse` gives for the requirement `s`.
pub open spec fn requirement_parse(s: Seq<char>) -> Result<
    (Seq<char>, Seq<(Op, Seq<char>)>),
    ParseFailure,
> {
    let t = trim(s);
    let name = name_part(t);
    let rest = rest_part(t);
    if t.len() == 0 {
        Err(ParseFailure::Empty)
    } else if name.len() == 0 {
        Err(ParseFailure::MissingName(t))
    } else if name_check(name) is Some {
        Err(name_check(name)->0)
    } else if trim(rest).len() == 0 {
        Ok((name, seq![]))
    } else {
        match pieces_parse(split(rest, ',')) {
            Ok(cs) => Ok((name, cs)),
            Err(e) => Err(e),
        }
    }
}

pub open spec fn is_ascii_char(c: char) -> bool {
    c <= '\u{7f}'
}

/// Whether parsing the comparator piece `p` stays on character boundaries:
/// its operator is read by byte offsets, which a multi-byte character among
/// its first two would split.
pub open spec fn piece_in_bounds(p: Seq<char>) -> bool {
    p.len() > 0 ==> (is_ascii_char(p[0]) && (p.len() >= 2 ==> is_ascii_char(p[1])))
}

/// Whether every piece that parsing reads stays on character boundaries.
pub open spec fn pieces_in_bounds(raw: Seq<Seq<char>>) -> bool
    decreases raw.len(),
{
    if raw.len() == 0 {
        true
    } else {
        let p = trim(raw[0]);
        if p.len() == 0 {
            pieces_in_bounds(raw.drop_first())
        } else {
            piece_in_bounds(p) && (piece_parse(p) is Ok ==> pieces_in_bounds(raw.drop_first()))
        }
    }
}

/// The requirements on which `parse` is defined: those whose comparators
/// never put a byte offset inside a multi-byte character.
pub open spec fn parse_in_bounds(s: Seq<char>) -> bool {
    let t = trim(s);
    let name = name_part(t);
    let rest = rest_part(t);
    (t.len() > 0 && name.len() > 0 && valid_name(name) && trim(rest).len() > 0) ==> pieces_in_bounds(
        split(rest, ','),
    )
}

/// Check a spell name against `[a-z][a-z0-9-]*`.
pub fn validate_name(name: &str) -> (r: Result<(), ConstraintError>)
    ensures
        match r {
            Ok(()) => name_check(name@) is None,
            Err(e) => name_check(name@) == Some(e@),
        },
{
    let v = chars_of(name);
    if !(v.len() > 0 && 'a' <= v[0] && v[0] <= 'z') {
        return Err(ConstraintError::NameStart { name: String::from_str(name) });
    }
    let mut i: usize = 0;
    while i < v.len()
        invariant
            v@ == name@,
            v@.len() > 0 && is_lower(v@[0]),
            i <= v.len(),
            forall|j: int| 0 <= j < i ==> is_name_char(#[trigger] v@[j]),
        decreases v.len() - i,
    {
        let c = v[i];
        if !(('a' <= c && c <= 'z') || ('0' <= c && c <= '9') || c == '-') {
            assert(!is_name_char(name@[i as int]));
            return Err(ConstraintError::NameChars { name: String::from_str(name) });
        }
        i = i + 1;
    }
    Ok(())
}

/// Whether `v[from..to]` is blank.
fn is_blank(v: &Vec<char>) -> (r: bool)
    ensures
        r == (trim(v@).len() == 0),
{
    let (a, b) = trim_bounds(v);
    a == b
}

/// Parse one comparator like `>= 1.95`.
pub fn parse_constraint(s: &str) -> (r: Result<Constraint, ConstraintError>)
    requires
        trim(s@).len() > 0,
        piece_in_bounds(trim(s@)),
    ensures
        match r {
            Ok(c) => piece_parse(trim(s@)) == Ok::<(Op, Seq<char>), ParseFailure>(c@),
            Err(e) => piece_parse(trim(s@)) == Err::<(Op, Seq<char>), ParseFailure>(e@),
        },
{
    let t = trim_str(s);
    let v = chars_of(t.as_str());
    let ghost p = v@;
    let two = if v.len() >= 2 {
        op_from_chars(&v, 0, 2)
    } else {
        None
    };
    let one = op_from_chars(&v, 0, 1);
    let (op, k): (Option<Op>, usize) = if two.is_some() {
        (two, 2)
    } else {
        (one, 1)
    };
    match op {
        Some(o) => {
            let version = trim_str(t.as_str().substring_char(k, v.len()));
            let vv = chars_of(version.as_str());
            if vv.len() == 0 {
                Err(ConstraintError::MissingVersion { constraint: t })
            } else if vv[0] == '<' || vv[0] == '>' || vv[0] == '=' || vv[0] == '!' {
                Err(ConstraintError::UnrecognizedOperator { constraint: t })
            } else {
                Ok(Constraint { op: o, version })
            }
        },
        None => Err(ConstraintError::NoOperator { constraint: t }),
    }
}

/// Parse a manifest entry like:
///   "rust"
///   "rust >= 1.95"
///   "java >= 18, < 20"
///   "android-studio == 2025.1.2.12"
pub fn parse(s: &str) -> (r: Result<Requirement, ConstraintError>)
    requires
        parse_in_bounds(s@),
    ensures
        match r {
            Ok(req) => requirement_parse(s@) == Ok::<
                (Seq<char>, Seq<(Op, Seq<char>)>),
                ParseFailure,
            >(req@),
            Err(e) => requirement_parse(s@) == Err::<
                (Seq<char>, Seq<(Op, Seq<char>)>),
                ParseFailure,
            >(e@),
        },
{
    let t = trim_str(s);
    let v = chars_of(t.as_str());
    if v.len() == 0 {
        return Err(ConstraintError::Empty);
    }
    let mut split_at: usize = 0;
    while split_at < v.len() && !(is_whitespace(v[split_at]) || v[split_at] == '<' || v[split_at]
        == '>' || v[split_at] == '=' || v[split_at] == '!' || v[split_at] == ',')
        invariant
            split_at <= v.len(),
            forall|i: int| 0 <= i < split_at ==> !ends_name(#[trigger] v@[i]),
        decreases v.len() - split_at,
    {
        split_at = split_at + 1;
    }
    proof {
        lemma_name_end_at(v@, split_at as int);
    }
    let name = substring(t.as_str(), 0, split_at);
    let rest = substring(t.as_str(), split_at, v.len());
    if split_at == 0 {
        return Err(ConstraintError::MissingName { requirement: t });
    }
    match validate_name(name.as_str()) {
        Ok(()) => {},
        Err(e) => {
            return Err(e);
        },
    }
    let rv = chars_of(rest.as_str());
    if is_blank(&rv) {
        let r = Requirement { name, constraints: Vec::new() };
        assert(constraint_views(r.constraints@) =~= Seq::<(Op, Seq<char>)>::empty());
        return Ok(r);
    }
    let raw = split_str(rest.as_str(), ',');
    let ghost raw_v = string_views(raw@);
    assert(requirement_parse(s@) == match pieces_parse(raw_v) {
        Ok(cs) => Ok((name@, cs)),
        Err(e) => Err(e),
    });
    let mut out: Vec<Constraint> = Vec::new();
    let mut i: usize = 0;
    proof {
        assert(raw_v.skip(0) =~= raw_v);
        assert(constraint_views(out@) =~= Seq::<(Op, Seq<char>)>::empty());
    }
    while i < raw.len()
        invariant
            raw_v == string_views(raw@),
            raw_v == split(rest@, ','),
            requirement_parse(s@) == match pieces_parse(raw_v) {
                Ok(cs) => Ok((name@, cs)),
                Err(e) => Err(e),
            },
            i <= raw.len(),
            pieces_in_bounds(raw_v.skip(i as int)),
            pieces_parse(raw_v) == match pieces_parse(raw_v.skip(i as int)) {
                Ok(cs) => Ok(constraint_views(out@) + cs),
                Err(e) => Err(e),
            },
        decreases raw.len() - i,
    {
        let ghost tail = raw_v.skip(i as int);
        proof {
            assert(tail[0] == raw@[i as int]@);
            assert(tail.drop_first() =~= raw_v.skip(i + 1));
        }
        let piece = trim_str(raw[i].as_str());
        let pv = chars_of(piece.as_str());
        if pv.len() > 0 {
            proof {
                assert(trim(piece@) == piece@) by {
                    crate::text::lemma_trim_idempotent(raw@[i as int]@);
                }
            }
            match parse_constraint(piece.as_str()) {
                Ok(c) => {
                    let ghost before = out@;
                    out.push(c);
                    proof {
                        assert(constraint_views(out@) =~= constraint_views(before).push(c@));
                        match pieces_parse(raw_v.skip(i + 1)) {
                            Ok(cs) => {
                                assert(constraint_views(out@) + cs =~= constraint_views(before)
                                    + (seq![c@] + cs));
                            },
                            Err(_) => {},
                        }
                    }
                },
                Err(e) => {
                    proof {
                        assert(trim(tail[0]) == piece@);
                        assert(pieces_parse(tail) == Err::<Seq<(Op, Seq<char>)>, ParseFailure>(
                            e@,
                        ));
                    }
                    return Err(e);
                },
            }
        }
        i = i + 1;
    }
    proof {
        assert(raw_v.skip(i as int) =~= Seq::<Seq<char>>::empty());
        assert(constraint_views(out@) + Seq::<(Op, Seq<char>)>::empty() =~= constraint_views(
            out@,
        ));
    }
    Ok(Requirement { name, constraints: out })
}

/// What parsing each of `rs` in turn gives: all the requirements, or the
/// index of the first entry that fails with its failure.
pub open spec fn requirements_parse(rs: Seq<Seq<char>>) -> Result<
    Seq<(Seq<char>, Seq<(Op, Seq<char>)>)>,
    (int, ParseFailure),
>
    decreases rs.len(),
{
    if rs.len() == 0 {
        Ok(seq![])
    } else {
        match requirement_parse(rs[0]) {
            Err(e) => Err((0, e)),
            Ok(r) => match requirements_parse(rs.drop_first()) {
                Err((i, e)) => Err((i + 1, e)),
                Ok(t) => Ok(seq![r] + t),
            },
        }
    }
}

/// Whether each entry that parsing `rs` in turn reaches is one on which
/// `parse` is defined.
pub open spec fn requirements_in_bounds(rs: Seq<Seq<char>>) -> bool
    decreases rs.len(),
{
    rs.len() > 0 ==> (parse_in_bounds(rs[0]) && (requirement_parse(rs[0]) is Ok
        ==> requirements_in_bounds(rs.drop_first())))
}

pub open spec fn requirement_views(rs: Seq<Requirement>) -> Seq<(Seq<char>, Seq<(Op, Seq<char>)>)> {
    rs.map_values(|r: Requirement| r@)
}

pub open spec fn entry_views(rs: Seq<String>) -> Seq<Seq<char>> {
    rs.map_values(|r: String| r@)
}

/// Parse each entry in turn, stopping at the first that fails, which is
/// returned with its index.
pub fn parse_all(entries: &Vec<String>) -> (r: Result<Vec<Requirement>, (usize, ConstraintError)>)
    requires
        requirements_in_bounds(entry_views(entries@)),
    ensures
        match r {
            Ok(v) => requirements_parse(entry_views(entries@)) == Ok::<
                Seq<(Seq<char>, Seq<(Op, Seq<char>)>)>,
                (int, ParseFailure),
            >(requirement_views(v@)),
            Err((i, e)) => requirements_parse(entry_views(entries@)) == Err::<
                Seq<(Seq<char>, Seq<(Op, Seq<char>)>)>,
                (int, ParseFailure),
            >((i as int, e@)),
        },
{
    let ghost ev = entry_views(entries@);
    let mut out: Vec<Requirement> = Vec::new();
    let mut i: usize = 0;
    proof {
        assert(ev.skip(0) =~= ev);
        assert(requirement_views(out@) =~= Seq::<(Seq<char>, Seq<(Op, Seq<char>)>)>::empty());
    }
    while i < entries.len()
        invariant
            ev == entry_views(entries@),
            i <= entries.len(),
            out.len() == i,
            requirements_in_bounds(ev.skip(i as int)),
            requirements_parse(ev) == match requirements_parse(ev.skip(i as int)) {
                Ok(t) => Ok(requirement_views(out@) + t),
                Err((j, e)) => Err((j + i, e)),
            },
        decreases entries.len() - i,
    {
        let ghost tail = ev.skip(i as int);
        proof {
            assert(tail[0] == entries@[i as int]@);
            assert(tail.drop_first() =~= ev.skip(i + 1));
        }
        match parse(entries[i].as_str()) {
            Ok(req) => {
                let ghost before = out@;
                out.push(req);
                proof {
                    assert(requirement_views(out@) =~= requirement_views(before).push(req@));
                    match requirements_parse(ev.skip(i + 1)) {
                        Ok(t) => {
                            assert(requirement_views(out@) + t =~= requirement_views(before) + (
                            seq![req@] + t));
                        },
                        Err(_) => {},
                    }
                }
            },
            Err(e) => {
                return Err((i, e));
            },
        }
        i = i + 1;
    }
    proof {
        assert(ev.skip(i as int) =~= Seq::<Seq<char>>::empty());
        assert(requirement_views(out@) + Seq::<(Seq<char>, Seq<(Op, Seq<char>)>)>::empty()
            =~= requirement_views(out@));
    }
    Ok(out)
}

/// Whether `parse` is defined on `s`: whether none of the comparators it
/// reads puts a byte offset inside a multi-byte character.
pub fn parse_defined(s: &str) -> (r: bool)
    ensures
        r == parse_in_bounds(s@),
{
    let t = trim_str(s);
    let v = chars_of(t.as_str());
    if v.len() == 0 {
        return true;
    }
    let mut split_at: usize = 0;
    while split_at < v.len() && !(is_whitespace(v[split_at]) || v[split_at] == '<' || v[split_at]
        == '>' || v[split_at] == '=' || v[split_at] == '!' || v[split_at] == ',')
        invariant
            split_at <= v.len(),
            forall|i: int| 0 <= i < split_at ==> !ends_name(#[trigger] v@[i]),
        decreases v.len() - split_at,
    {
        split_at = split_at + 1;
    }
    proof {
        lemma_name_end_at(v@, split_at as int);
    }
    let name = substring(t.as_str(), 0, split_at);
    let rest = substring(t.as_str(), split_at, v.len());
    if split_at == 0 {
        return true;
    }
    if validate_name(name.as_str()).is_err() {
        return true;
    }
    let rv = chars_of(rest.as_str());
    if is_blank(&rv) {
        return true;
    }
    let raw = split_str(rest.as_str(), ',');
    let ghost raw_v = string_views(raw@);
    let mut i: usize = 0;
    proof {
        assert(raw_v.skip(0) =~= raw_v);
    }
    while i < raw.len()
        invariant
            raw_v == string_views(raw@),
            i <= raw.len(),
            parse_in_bounds(s@) == pieces_in_bounds(raw_v.skip(i as int)),
        decreases raw.len() - i,
    {
        let ghost tail = raw_v.skip(i as int);
        proof {
            assert(tail[0] == raw@[i as int]@);
            assert(tail.drop_first() =~= raw_v.skip(i + 1));
        }
        let piece = trim_str(raw[i].as_str());
        let pv = chars_of(piece.as_str());
        if pv.len() > 0 {
            if !(pv[0] <= '\u{7f}' && (pv.len() < 2 || pv[1] <= '\u{7f}')) {
                return false;
            }
            proof {
                assert(trim(piece@) == piece@) by {
                    crate::text::lemma_trim_idempotent(raw@[i as int]@);
                }
            }
            if parse_constraint(piece.as_str()).is_err() {
                return true;
            }
        }
        i = i + 1;
    }
    proof {
        assert(raw_v.skip(i as int) =~= Seq::<Seq<char>>::empty());
    }
    true
}

/// Whether parsing the entries in turn, up to the first that fails, stays
/// where `parse` is defined.
pub fn requirements_defined(entries: &Vec<String>) -> (r: bool)
    ensures
        r == requirements_in_bounds(entry_views(entries@)),
{
    let ghost ev = entry_views(entries@);
    let mut i: usize = 0;
    proof {
        assert(ev.skip(0) =~= ev);
    }
    while i < entries.len()
        invariant
            ev == entry_views(entries@),
            i <= entries.len(),
            requirements_in_bounds(ev) == requirements_in_bounds(ev.skip(i as int)),
        decreases entries.len() - i,
    {
        let ghost tail = ev.skip(i as int);
        proof {
            assert(tail[0] == entries@[i as int]@);
            assert(tail.drop_first() =~= ev.skip(i + 1));
        }
        if !parse_defined(entries[i].as_str()) {
            return false;
        }
        if parse(entries[i].as_str()).is_err() {
            return true;
        }
        i = i + 1;
    }
    true
}

/// Parsing a list succeeds entry by entry.
pub proof fn lemma_requirements_parse_elem(rs: Seq<Seq<char>>)
    ensures
        requirements_parse(rs) is Ok ==> {
            let v = requirements_parse(rs)->Ok_0;
            &&& v.len() == rs.len()
            &&& forall|j: int| 0 <= j < rs.len() ==> requirement_parse(#[trigger] rs[j]) == Ok::<
                (Seq<char>, Seq<(Op, Seq<char>)>),
                ParseFailure,
            >(v[j])
        },
    decreases rs.len(),
{
    if rs.len() > 0 {
        lemma_requirements_parse_elem(rs.drop_first());
        if requirements_parse(rs) is Ok {
            let v = requirements_parse(rs)->Ok_0;
            assert forall|j: int| 0 <= j < rs.len() implies requirement_parse(#[trigger] rs[j]) == Ok::<
                (Seq<char>, Seq<(Op, Seq<char>)>),
                ParseFailure,
            >(v[j]) by {
                if j > 0 {
                    assert(rs[j] == rs.drop_first()[j - 1]);
                }
            }
        }
    }
}

/// A parsed requirement always names a valid spell.
pub proof fn lemma_parsed_name_valid(s: Seq<char>)
    ensures
        requirement_parse(s) is Ok ==> valid_name(requirement_parse(s)->Ok_0.0),
{
}

/// A requirement without comparators is met by every version.
pub proof fn lemma_no_constraints_accept_all(observed: Seq<char>)
    ensures
        all_hold(seq![], observed),
{
}


/// How the operator `o` is written.
pub open spec fn op_text(o: Op) -> Seq<char> {
    match o {
        Op::Lt => seq!['<'],
        Op::Le => seq!['<', '='],
        Op::Eq => seq!['=', '='],
        Op::Ne => seq!['!', '='],
        Op::Ge => seq!['>', '='],
        Op::Gt => seq!['>'],
    }
}

/// A version as a comparator writes it: not empty, without whitespace or
/// commas, and not starting with an operator character.
pub open spec fn plain_version(v: Seq<char>) -> bool {
    &&& v.len() > 0
    &&& forall|i: int| 0 <= i < v.len() ==> !is_ws(#[trigger] v[i]) && v[i] != ','
    &&& v[0] != '<' && v[0] != '>' && v[0] != '=' && v[0] != '!'
}

/// The comparator `c` written out: its operator, a space if `spaced`, then
/// its version.
pub open spec fn comparator_text(c: (Op, Seq<char>), spaced: bool) -> Seq<char> {
    op_text(c.0) + (if spaced {
        seq![' ']
    } else {
        Seq::<char>::empty()
    }) + c.1
}

/// The comparators written out after a name: each after a space, the
/// comparators separated by commas.
pub open spec fn comparators_text(cs: Seq<(Op, Seq<char>)>, spaced: bool) -> Seq<char>
    decreases cs.len(),
{
    if cs.len() == 0 {
        Seq::<char>::empty()
    } else if cs.len() == 1 {
        seq![' '] + comparator_text(cs[0], spaced)
    } else {
        seq![' '] + comparator_text(cs[0], spaced) + seq![','] + comparators_text(cs.drop_first(), spaced)
    }
}

/// The requirement on `name` with the comparators `cs` written as the
/// constraint syntax gives it: `name op version, op version, ...`, with a
/// space between each operator and its version if `spaced`.
pub open spec fn requirement_text(name: Seq<char>, cs: Seq<(Op, Seq<char>)>, spaced: bool) -> Seq<char> {
    name + comparators_text(cs, spaced)
}

proof fn lemma_comparator(c: (Op, Seq<char>), spaced: bool)
    requires
        plain_version(c.1),
    ensures
        comparator_text(c, spaced).len() >= 2,
        !is_ws(comparator_text(c, spaced)[0]),
        !is_ws(comparator_text(c, spaced).last()),
        forall|i: int| 0 <= i < comparator_text(c, spaced).len() ==> #[trigger] comparator_text(c, spaced)[i] != ',',
        piece_parse(comparator_text(c, spaced)) == Ok::<(Op, Seq<char>), ParseFailure>(c),
        spaced || is_ascii_char(c.1[0]) ==> piece_in_bounds(comparator_text(c, spaced)),
        trim(seq![' '] + comparator_text(c, spaced)) == comparator_text(c, spaced),
{
    let o = c.0;
    let v = c.1;
    let g: Seq<char> = if spaced {
        seq![' ']
    } else {
        Seq::<char>::empty()
    };
    let ot = op_text(o);
    let p = ot + g + v;
    assert(p == comparator_text(c, spaced));
    assert(1 <= ot.len() <= 2);
    assert forall|i: int| 0 <= i < p.len() implies #[trigger] p[i] != ',' by {
        if i >= ot.len() + g.len() {
            assert(p[i] == v[i - ot.len() - g.len()]);
        }
    }
    assert(p.last() == v[v.len() - 1]);
    assert(!is_ws(p[0]));
    lemma_trim_start_at(p, 0);
    assert(p.subrange(0, p.len() as int) =~= p);
    lemma_trim_end_at(p, p.len() as int);
    let sp = seq![' '] + p;
    assert(is_ws(sp[0]));
    assert(sp[1] == p[0]);
    lemma_trim_start_at(sp, 1);
    assert(sp.subrange(1, sp.len() as int) =~= p);
    let k = ot.len() as int;
    let gv = g + v;
    assert(p.subrange(k, p.len() as int) =~= gv);
    assert forall|i: int| 0 <= i < g.len() implies is_ws(#[trigger] gv[i]) by {
        assert(gv[i] == ' ');
    }
    assert(gv[g.len() as int] == v[0]);
    lemma_trim_start_at(gv, g.len() as int);
    assert(gv.subrange(g.len() as int, gv.len() as int) =~= v);
    lemma_trim_end_at(v, v.len() as int);
    assert(v.subrange(0, v.len() as int) =~= v);
    assert(trim(gv) == v);
    assert(p[1] == (if k == 2 {
        ot[1]
    } else if spaced {
        ' '
    } else {
        v[0]
    }));
    if k == 2 {
        assert(p.subrange(0, 2) =~= ot);
    } else {
        assert(p.subrange(0, 1) =~= ot);
        assert(p.subrange(0, 2)[1] == p[1]);
        assert(p.subrange(0, 2)[0] == p[0]);
    }
}

proof fn lemma_comparators(cs: Seq<(Op, Seq<char>)>, spaced: bool)
    requires
        cs.len() > 0,
        forall|i: int| 0 <= i < cs.len() ==> plain_version(#[trigger] cs[i].1),
    ensures
        comparators_text(cs, spaced).len() >= 2,
        comparators_text(cs, spaced)[0] == ' ',
        !is_ws(comparators_text(cs, spaced)[1]),
        !is_ws(comparators_text(cs, spaced).last()),
        pieces_parse(split(comparators_text(cs, spaced), ',')) == Ok::<Seq<(Op, Seq<char>)>, ParseFailure>(cs),
        (spaced || forall|i: int| 0 <= i < cs.len() ==> is_ascii_char(#[trigger] cs[i].1[0])) ==> pieces_in_bounds(
            split(comparators_text(cs, spaced), ','),
        ),
    decreases cs.len(),
{
    let c0 = cs[0];
    assert(plain_version(c0.1));
    lemma_comparator(c0, spaced);
    let p = comparator_text(c0, spaced);
    let piece = seq![' '] + p;
    assert forall|i: int| 0 <= i < piece.len() implies piece[i] != ',' by {
        if i > 0 {
            assert(piece[i] == p[i - 1]);
        }
    }
    assert(piece[1] == p[0]);
    assert(trim(piece) == p);
    let r = comparators_text(cs, spaced);
    if cs.len() == 1 {
        assert(r == piece);
        assert(r.last() == p.last());
        lemma_find_char_at(piece, ',', piece.len() as int);
        assert(split(piece, ',') =~= seq![piece]);
        let raw = seq![piece];
        assert(raw.drop_first() =~= Seq::<Seq<char>>::empty());
        assert(pieces_parse(raw.drop_first()) == Ok::<Seq<(Op, Seq<char>)>, ParseFailure>(seq![]));
        assert(pieces_in_bounds(raw.drop_first()));
        assert(trim(raw[0]) == p);
        assert(seq![c0] + Seq::<(Op, Seq<char>)>::empty() =~= cs);
        assert(pieces_parse(raw) == Ok::<Seq<(Op, Seq<char>)>, ParseFailure>(cs));
        if spaced || forall|i: int| 0 <= i < cs.len() ==> is_ascii_char(#[trigger] cs[i].1[0]) {
            if !spaced {
                assert(is_ascii_char(cs[0].1[0]));
            }
            assert(piece_in_bounds(p));
            assert(pieces_in_bounds(raw));
        }
    } else {
        let tail = cs.drop_first();
        assert forall|i: int| 0 <= i < tail.len() implies plain_version(#[trigger] tail[i].1) by {
            assert(tail[i] == cs[i + 1]);
        }
        lemma_comparators(tail, spaced);
        let rt = comparators_text(tail, spaced);
        assert(r == piece + seq![','] + rt);
        assert(piece + seq![','] =~= piece.push(','));
        lemma_split_line(piece, ',');
        lemma_split_concat(piece.push(','), rt, ',');
        assert(piece.push(',') + rt =~= r);
        assert(seq![piece, Seq::<char>::empty()].drop_last() =~= seq![piece]);
        let raw = split(r, ',');
        assert(raw =~= seq![piece] + split(rt, ','));
        assert(raw[0] == piece);
        assert(raw.drop_first() =~= split(rt, ','));
        assert(seq![c0] + tail =~= cs);
        assert(r.last() == rt.last());
        assert(trim(raw[0]) == p);
        assert(pieces_parse(raw) == Ok::<Seq<(Op, Seq<char>)>, ParseFailure>(cs));
        if spaced || forall|i: int| 0 <= i < cs.len() ==> is_ascii_char(#[trigger] cs[i].1[0]) {
            if !spaced {
                assert forall|i: int| 0 <= i < tail.len() implies is_ascii_char(#[trigger] tail[i].1[0]) by {
                    assert(tail[i] == cs[i + 1]);
                    assert(is_ascii_char(cs[i + 1].1[0]));
                }
                assert(is_ascii_char(cs[0].1[0]));
            }
            assert(piece_in_bounds(p));
            assert(pieces_in_bounds(raw));
        }
    }
}

/// A requirement written in the constraint syntax reads back as its parts:
/// a valid spell name followed by comparators, each an operator and a plain
/// version, parses to that name and those comparators in order. Where every
/// operator is followed by a space, or every version starts with an ASCII
/// character, parsing it stays within what `parse` accepts.
pub proof fn lemma_parse_reads_back(name: Seq<char>, cs: Seq<(Op, Seq<char>)>, spaced: bool)
    requires
        valid_name(name),
        forall|i: int| 0 <= i < cs.len() ==> plain_version(#[trigger] cs[i].1),
    ensures
        requirement_parse(requirement_text(name, cs, spaced)) == Ok::<
            (Seq<char>, Seq<(Op, Seq<char>)>),
            ParseFailure,
        >((name, cs)),
        (spaced || forall|i: int| 0 <= i < cs.len() ==> is_ascii_char(#[trigger] cs[i].1[0]))
            ==> parse_in_bounds(requirement_text(name, cs, spaced)),
{
    let r = comparators_text(cs, spaced);
    let t = requirement_text(name, cs, spaced);
    assert(t == name + r);
    assert(is_lower(name[0]));
    assert(is_name_char(name[name.len() - 1]));
    if cs.len() > 0 {
        lemma_comparators(cs, spaced);
        assert(t.last() == r.last());
        assert(t[name.len() as int] == r[0]);
    } else {
        assert(r =~= Seq::<char>::empty());
        assert(t =~= name);
    }
    assert(t[0] == name[0]);
    assert(!is_ws(t[0]));
    assert(!is_ws(t.last()));
    lemma_trim_start_at(t, 0);
    assert(t.subrange(0, t.len() as int) =~= t);
    lemma_trim_end_at(t, t.len() as int);
    assert(trim(t) == t);
    assert forall|i: int| 0 <= i < name.len() implies !ends_name(#[trigger] t[i]) by {
        assert(t[i] == name[i]);
        assert(is_name_char(name[i]));
    }
    lemma_name_end_at(t, name.len() as int);
    assert(name_part(t) =~= name);
    assert(rest_part(t) =~= r);
    if cs.len() > 0 {
        assert(is_ws(r[0]));
        lemma_trim_start_at(r, 1);
        assert(trim_start(r) == r.subrange(1, r.len() as int));
        lemma_trim_start_no_ws_first(r);
        assert(trim(r).len() > 0);
    } else {
        assert(trim_start(r) == r);
        assert(trim(r).len() == 0);
        assert(cs =~= seq![]);
    }
}


/// The sentence that describes a parse failure. Names and comparators are
/// shown in double quotes, as `{:?}` shows them; characters that `{:?}`
/// would escape are written as they are.
pub open spec fn failure_message(f: ParseFailure) -> Seq<char> {
    match f {
        ParseFailure::Empty => "empty requirement"@,
        ParseFailure::MissingName(r) => "requirement "@ + quoted(r) + " is missing a spell name"@,
        ParseFailure::NameStart(n) => "spell name "@ + quoted(n) + " must start with a lowercase letter"@,
        ParseFailure::NameChars(n) => "spell name "@ + quoted(n) + " must match [a-z][a-z0-9-]*"@,
        ParseFailure::MissingVersion(c) => "constraint "@ + quoted(c) + " is missing a version"@,
        ParseFailure::UnrecognizedOperator(c) => "constraint "@ + quoted(c) + " has an unrecognized operator"@,
        ParseFailure::NoOperator(c) => "constraint "@ + quoted(c) + " must start with one of: <, <=, ==, !=, >=, >"@,
    }
}

/// Whether the failure is in one comparator of the requirement.
pub open spec fn in_comparator(f: ParseFailure) -> bool {
    f is MissingVersion || f is UnrecognizedOperator || f is NoOperator
}

/// The message of a failure to parse the requirement `entry`: a failure in
/// a comparator comes after the requirement it was found in.
pub open spec fn entry_failure_message(entry: Seq<char>, f: ParseFailure) -> Seq<char> {
    if in_comparator(f) {
        "parsing requirement "@ + quoted(trim(entry)) + ": "@ + failure_message(f)
    } else {
        failure_message(f)
    }
}

impl ConstraintError {
    /// The error as a sentence.
    pub fn message(&self) -> (r: String)
        ensures
            r@ == failure_message(self@),
    {
        let mut s = String::new();
        match self {
            ConstraintError::Empty => {
                s.append("empty requirement");
            },
            ConstraintError::MissingName { requirement } => {
                s.append("requirement ");
                push_quoted(&mut s, requirement.as_str());
                s.append(" is missing a spell name");
            },
            ConstraintError::NameStart { name } => {
                s.append("spell name ");
                push_quoted(&mut s, name.as_str());
                s.append(" must start with a lowercase letter");
            },
            ConstraintError::NameChars { name } => {
                s.append("spell name ");
                push_quoted(&mut s, name.as_str());
                s.append(" must match [a-z][a-z0-9-]*");
            },
            ConstraintError::MissingVersion { constraint } => {
                s.append("constraint ");
                push_quoted(&mut s, constraint.as_str());
                s.append(" is missing a version");
            },
            ConstraintError::UnrecognizedOperator { constraint } => {
                s.append("constraint ");
                push_quoted(&mut s, constraint.as_str());
                s.append(" has an unrecognized operator");
            },
            ConstraintError::NoOperator { constraint } => {
                s.append("constraint ");
                push_quoted(&mut s, constraint.as_str());
                s.append(" must start with one of: <, <=, ==, !=, >=, >");
            },
        }
        proof {
            assert(s@ =~= failure_message(self@));
        }
        s
    }

    /// The error met parsing the requirement `entry`, as a sentence.
    pub fn entry_message(&self, entry: &str) -> (r: String)
        ensures
            r@ == entry_failure_message(entry@, self@),
    {
        let inner = self.message();
        match self {
            ConstraintError::MissingVersion { .. } | ConstraintError::UnrecognizedOperator { .. }
            | ConstraintError::NoOperator { .. } => {
                let mut s = String::from_str("parsing requirement ");
                let t = trim_str(entry);
                push_quoted(&mut s, t.as_str());
                s.append(": ");
                s.append(inner.as_str());
                proof {
                    assert(s@ =~= entry_failure_message(entry@, self@));
                }
                s
            },
            _ => inner,
        }
    }
}


/// What each comparator means against the version order: `<` holds of the
/// versions before the bound, `<=` of those before it or equal to it, `==`
/// of those equal to it, `!=` of all others, `>=` of those equal to it or
/// after it, `>` of those after it. So `<=`, `==` and `>=` hold of the bound
/// itself and `<`, `>` do not, and each comparator holds exactly when its
/// opposite does not.
pub proof fn lemma_comparator_meaning(v: Seq<char>, b: Seq<char>)
    ensures
        constraint_holds((Op::Lt, b), v) <==> version_order(v, b) == Order::Less,
        constraint_holds((Op::Le, b), v) <==> (version_order(v, b) == Order::Less || version_order(v, b)
            == Order::Equal),
        constraint_holds((Op::Eq, b), v) <==> version_order(v, b) == Order::Equal,
        constraint_holds((Op::Ne, b), v) <==> (version_order(v, b) == Order::Less || version_order(v, b)
            == Order::Greater),
        constraint_holds((Op::Ge, b), v) <==> (version_order(v, b) == Order::Greater || version_order(v, b)
            == Order::Equal),
        constraint_holds((Op::Gt, b), v) <==> version_order(v, b) == Order::Greater,
        constraint_holds((Op::Le, b), v) <==> !constraint_holds((Op::Gt, b), v),
        constraint_holds((Op::Lt, b), v) <==> !constraint_holds((Op::Ge, b), v),
        constraint_holds((Op::Eq, b), v) <==> !constraint_holds((Op::Ne, b), v),
        constraint_holds((Op::Le, v), v),
        constraint_holds((Op::Eq, v), v),
        constraint_holds((Op::Ge, v), v),
        !constraint_holds((Op::Lt, v), v),
        !constraint_holds((Op::Gt, v), v),
        !constraint_holds((Op::Ne, v), v),
{
    lemma_compare_reflexive(v);
}

} // verus!
