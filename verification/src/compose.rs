//! Compose-channel logic.
//!
//! Casting a `compose` channel is three steps:
//!   1. **Resolve parameters**: declared params to values, layering
//!      persisted values (so generated secrets carry over across casts) and
//!      an optional user override env.
//!   2. **Fetch the source**: shallow-clone the repo at the pinned `ref`
//!      and copy the `path` subtree into the service dir.
//!   3. **Bring the project up**: `docker compose -p <name> -f <file> up -d`.
//!
//! The service dir, its `.env` and the commands are handled by the program
//! around the library; this module resolves the parameters, reads and
//! writes the `.env` text and builds the shell snippets.
use crate::envmap::{keys_ascend, pair_views, pairs_map, EnvMap};
use crate::spell::{Channel, Parameter, ParameterKind};
use crate::text::{
    drop_cr, is_ws, keys_ascending, lemma_find_char_at, lemma_lines_push, lemma_trim_end_at, lemma_trim_start_at, chars_of, lines, lines_of, quote_word, shell_word, split_once, split_once_str, strip_end,
    strip_end_str, string_views, substring, trim, trim_start, trim_start_str, trim_str,
};
use vstd::prelude::*;

verus! {

/// The compose file a channel uses when it names none.
pub open spec fn default_compose_file() -> Seq<char> {
    "docker-compose.yml"@
}

/// What one line of a `.env` file does to the values read so far: a blank
/// or `#` line (after leading whitespace), a line without `=`, or one whose
/// key trims to nothing does nothing; else the trimmed key gets the text
/// after the first `=`, verbatim.
pub open spec fn apply_env_line(m: Map<Seq<char>, Seq<char>>, line: Seq<char>) -> Map<Seq<char>, Seq<char>> {
    let l = trim_start(line);
    if l.len() == 0 || l[0] == '#' {
        m
    } else {
        match split_once(l, '=') {
            None => m,
            Some((k, v)) => if trim(k).len() == 0 {
                m
            } else {
                m.insert(trim(k), v)
            },
        }
    }
}

/// The values that the lines `ls` give, read in order.
pub open spec fn env_lines(ls: Seq<Seq<char>>) -> Map<Seq<char>, Seq<char>>
    decreases ls.len(),
{
    if ls.len() == 0 {
        Map::empty()
    } else {
        apply_env_line(env_lines(ls.drop_last()), ls.last())
    }
}

/// The values that the text of a `.env` file holds.
pub open spec fn env_text(s: Seq<char>) -> Map<Seq<char>, Seq<char>> {
    env_lines(lines(s))
}

/// Tiny `.env` parser: `KEY=VALUE` per line; `#` comments and blank lines
/// ignored. No interpolation, no quote stripping: values are taken verbatim.
pub fn parse_env(s: &str) -> (m: EnvMap)
    ensures
        m@ == env_text(s@),
{
    let ls = lines_of(s);
    let ghost lv = lines(s@);
    let mut out = EnvMap::new();
    let mut i: usize = 0;
    proof {
        assert(lv.take(0) =~= Seq::<Seq<char>>::empty());
    }
    while i < ls.len()
        invariant
            i <= ls.len(),
            string_views(ls@) == lv,
            out@ == env_lines(lv.take(i as int)),
        decreases ls.len() - i,
    {
        proof {
            assert(lv.take(i + 1).drop_last() =~= lv.take(i as int));
            assert(lv.take(i + 1).last() == ls@[i as int]@);
        }
        let line = trim_start_str(ls[i].as_str());
        let lc = chars_of(line.as_str());
        if lc.len() > 0 && lc[0] != '#' {
            match split_once_str(line.as_str(), '=') {
                None => {},
                Some((k, v)) => {
                    let key = trim_str(k.as_str());
                    let kc = chars_of(key.as_str());
                    if kc.len() > 0 {
                        out.insert(key, v);
                    }
                },
            }
        }
        i = i + 1;
    }
    proof {
        assert(lv.take(ls.len() as int) =~= lv);
    }
    out
}

/// POSIX shell single-quote escape. Safe to interpolate into bash `'...'`
/// contexts even when the input contains apostrophes.
pub fn sh_quote(s: &str) -> (r: String)
    ensures
        r@ == shell_word(s@),
{
    quote_word(s)
}

/// The lowercase hexadecimal digits.
pub open spec fn hex_digits() -> Seq<char> {
    seq!['0', '1', '2', '3', '4', '5', '6', '7', '8', '9', 'a', 'b', 'c', 'd', 'e', 'f']
}

/// `bytes` written as two lowercase hexadecimal digits each, as the format
/// `{:02x}` writes a byte.
pub open spec fn hex(bytes: Seq<u8>) -> Seq<char>
    decreases bytes.len(),
{
    if bytes.len() == 0 {
        seq![]
    } else {
        hex(bytes.drop_last()) + seq![
            hex_digits()[bytes.last() as int / 16],
            hex_digits()[bytes.last() as int % 16],
        ]
    }
}

/// Write random bytes as a secret: two lowercase hexadecimal digits per
/// byte, so 32 bytes give a 64-character secret.
pub fn hex_secret(bytes: &[u8]) -> (r: String)
    ensures
        r@ == hex(bytes@),
{
    let digits = "0123456789abcdef";
    assert(digits@ == hex_digits()) by {
        reveal_strlit("0123456789abcdef");
        assert(digits@ =~= hex_digits());
    }
    let mut out = String::new();
    let mut i: usize = 0;
    while i < bytes.len()
        invariant
            i <= bytes.len(),
            digits@ == hex_digits(),
            out@ == hex(bytes@.take(i as int)),
        decreases bytes.len() - i,
    {
        let b = bytes[i];
        let hi = (b / 16) as usize;
        let lo = (b % 16) as usize;
        out.append(digits.substring_char(hi, hi + 1));
        out.append(digits.substring_char(lo, lo + 1));
        proof {
            assert(bytes@.take(i + 1).drop_last() =~= bytes@.take(i as int));
            assert(digits@.subrange(hi as int, hi + 1) =~= seq![hex_digits()[hi as int]]);
            assert(digits@.subrange(lo as int, lo + 1) =~= seq![hex_digits()[lo as int]]);
            assert(out@ =~= hex(bytes@.take(i + 1)));
        }
        i = i + 1;
    }
    proof {
        assert(bytes@.take(bytes.len() as int) =~= bytes@);
    }
    out
}

/// A generated secret has two lowercase hexadecimal digits per random byte:
/// 32 bytes give 64 hexadecimal characters.
pub proof fn lemma_hex_secret(bytes: Seq<u8>)
    ensures
        hex(bytes).len() == 2 * bytes.len(),
        forall|i: int| 0 <= i < hex(bytes).len() ==> hex_digits().contains(#[trigger] hex(bytes)[i]),
    decreases bytes.len(),
{
    if bytes.len() > 0 {
        let b = bytes.last();
        lemma_hex_secret(bytes.drop_last());
        let h = hex(bytes);
        let h0 = hex(bytes.drop_last());
        let d = seq![hex_digits()[b as int / 16], hex_digits()[b as int % 16]];
        assert(h == h0 + d);
        assert forall|i: int| 0 <= i < h.len() implies hex_digits().contains(#[trigger] h[i]) by {
            if i < h0.len() {
                assert(h[i] == h0[i]);
            } else if i == h0.len() {
                assert(h[i] == hex_digits()[b as int / 16]);
            } else {
                assert(h[i] == hex_digits()[b as int % 16]);
            }
        }
    }
}

/// Whether parameter `p` named `name` gets a value: from the override env,
/// from a non-empty persisted value, from its default, or as a generated
/// secret.
pub open spec fn has_value(
    p: Parameter,
    name: Seq<char>,
    persisted: Map<Seq<char>, Seq<char>>,
    over: Map<Seq<char>, Seq<char>>,
) -> bool {
    ||| over.contains_key(name)
    ||| (persisted.contains_key(name) && persisted[name].len() > 0)
    ||| p.default is Some
    ||| p.kind == Some(ParameterKind::Secret)
}

/// The value parameter `p` named `name` resolves to, highest priority
/// first: the override env, a non-empty persisted value, its default, and
/// for a secret the random bytes `entropy` in hexadecimal.
pub open spec fn param_value(
    p: Parameter,
    name: Seq<char>,
    persisted: Map<Seq<char>, Seq<char>>,
    over: Map<Seq<char>, Seq<char>>,
    entropy: Seq<u8>,
) -> Option<Seq<char>> {
    if over.contains_key(name) {
        Some(over[name])
    } else if persisted.contains_key(name) && persisted[name].len() > 0 {
        Some(persisted[name])
    } else if p.default is Some {
        Some(p.default->0@)
    } else if p.kind == Some(ParameterKind::Secret) {
        Some(hex(entropy))
    } else {
        None
    }
}

/// The entropy blocks by their bytes.
pub open spec fn entropy_views(e: Seq<Vec<u8>>) -> Seq<Seq<u8>> {
    e.map_values(|b: Vec<u8>| b@)
}

/// The persisted values with each declared parameter that resolves set to
/// its value, in declaration order.
pub open spec fn layered(
    declared: Seq<(String, Parameter)>,
    persisted: Map<Seq<char>, Seq<char>>,
    over: Map<Seq<char>, Seq<char>>,
    entropy: Seq<Seq<u8>>,
) -> Map<Seq<char>, Seq<char>>
    decreases declared.len(),
{
    if declared.len() == 0 {
        persisted
    } else {
        let i = declared.len() - 1;
        let m = layered(declared.drop_last(), persisted, over, entropy);
        match param_value(declared[i].1, declared[i].0@, persisted, over, entropy[i]) {
            Some(v) => m.insert(declared[i].0@, v),
            None => m,
        }
    }
}

/// The names, in declaration order, of the required parameters that get no
/// value.
pub open spec fn missing_required(
    declared: Seq<(String, Parameter)>,
    persisted: Map<Seq<char>, Seq<char>>,
    over: Map<Seq<char>, Seq<char>>,
) -> Seq<Seq<char>>
    decreases declared.len(),
{
    if declared.len() == 0 {
        seq![]
    } else {
        let i = declared.len() - 1;
        let rest = missing_required(declared.drop_last(), persisted, over);
        if declared[i].1.required && !has_value(declared[i].1, declared[i].0@, persisted, over) {
            rest.push(declared[i].0@)
        } else {
            rest
        }
    }
}

/// Whether some declared parameter is named `k`.
pub open spec fn declares(declared: Seq<(String, Parameter)>, k: Seq<char>) -> bool {
    exists|i: int| 0 <= i < declared.len() && #[trigger] declared[i].0@ == k
}

proof fn lemma_layered_keys(
    declared: Seq<(String, Parameter)>,
    persisted: Map<Seq<char>, Seq<char>>,
    over: Map<Seq<char>, Seq<char>>,
    entropy: Seq<Seq<u8>>,
    k: Seq<char>,
)
    ensures
        !declares(declared, k) ==> (layered(declared, persisted, over, entropy).contains_key(k)
            == persisted.contains_key(k) && (persisted.contains_key(k) ==> layered(
            declared,
            persisted,
            over,
            entropy,
        )[k] == persisted[k])),
        !over.contains_key(k) && persisted.contains_key(k) && persisted[k].len() > 0 ==> layered(
            declared,
            persisted,
            over,
            entropy,
        ).contains_key(k) && layered(declared, persisted, over, entropy)[k] == persisted[k],
    decreases declared.len(),
{
    if declared.len() > 0 {
        let d0 = declared.drop_last();
        lemma_layered_keys(d0, persisted, over, entropy, k);
        if !declares(declared, k) {
            assert(!declares(d0, k)) by {
                if declares(d0, k) {
                    let i = choose|i: int| 0 <= i < d0.len() && #[trigger] d0[i].0@ == k;
                    assert(declared[i] == d0[i]);
                }
            }
            assert(declared[declared.len() - 1].0@ != k);
        }
    }
}

/// What resolving parameters keeps and what it overrides: every key of the
/// override env gets its value there; a key that no parameter declares and
/// the override env lacks keeps exactly its persisted value, or stays
/// absent; and a non-empty persisted value, such as a generated secret,
/// carries over unless the override env replaces it.
pub proof fn lemma_params_layering(
    declared: Seq<(String, Parameter)>,
    persisted: Map<Seq<char>, Seq<char>>,
    over: Map<Seq<char>, Seq<char>>,
    entropy: Seq<Seq<u8>>,
    k: Seq<char>,
)
    ensures
        ({
            let m = layered(declared, persisted, over, entropy).union_prefer_right(over);
            &&& over.contains_key(k) ==> m.contains_key(k) && m[k] == over[k]
            &&& (!over.contains_key(k) && !declares(declared, k)) ==> (m.contains_key(k)
                == persisted.contains_key(k) && (persisted.contains_key(k) ==> m[k] == persisted[k]))
            &&& (!over.contains_key(k) && persisted.contains_key(k) && persisted[k].len() > 0) ==> m.contains_key(k)
                && m[k] == persisted[k]
        }),
{
    lemma_layered_keys(declared, persisted, over, entropy, k);
}

/// Why the parameters of a compose channel could not be resolved.
#[derive(Debug, Clone, PartialEq, Eq)]
pub enum ParamError {
    /// Required parameters of the spell got no value.
    MissingRequired { spell: String, names: Vec<String> },
}

/// Resolve declared parameters to concrete values.
///
/// Priority (highest first): the user override env, the persisted service
/// `.env` (which carries over generated secrets), the spell-declared
/// `default`, and a generated secret if `kind: secret`; the secret of the
/// `i`-th declared parameter is `entropy[i]` in hexadecimal.
///
/// Required parameters with no resolved value are collected and reported
/// together so the user fixes them in one pass. Unknown keys in the
/// persisted `.env` (e.g. user-added extras) are preserved, and every key of
/// the override env wins, declared or not.
pub fn resolve_parameters(
    spell_name: &str,
    declared: &Vec<(String, Parameter)>,
    persisted: &EnvMap,
    override_env: &EnvMap,
    entropy: &Vec<Vec<u8>>,
) -> (r: Result<EnvMap, ParamError>)
    requires
        entropy.len() == declared.len(),
        keys_ascending(declared@),
    ensures
        missing_required(declared@, persisted@, override_env@).len() > 0 ==> (r matches Err(
            ParamError::MissingRequired { spell, names },
        ) && spell@ == spell_name@ && string_views(names@) == missing_required(
            declared@,
            persisted@,
            override_env@,
        )),
        missing_required(declared@, persisted@, override_env@).len() == 0 ==> (r matches Ok(m) && m@
            == layered(declared@, persisted@, override_env@, entropy_views(entropy@)).union_prefer_right(
            override_env@,
        )),
{
    let mut out = persisted.copy();
    let mut missing: Vec<String> = Vec::new();
    let ghost ev = entropy_views(entropy@);
    let mut i: usize = 0;
    proof {
        assert(declared@.take(0) =~= Seq::<(String, Parameter)>::empty());
        assert(string_views(missing@) =~= Seq::<Seq<char>>::empty());
    }
    while i < declared.len()
        invariant
            i <= declared.len(),
            entropy.len() == declared.len(),
            ev == entropy_views(entropy@),
            out@ == layered(declared@.take(i as int), persisted@, override_env@, ev),
            string_views(missing@) == missing_required(declared@.take(i as int), persisted@, override_env@),
        decreases declared.len() - i,
    {
        let name = &declared[i].0;
        let p = &declared[i].1;
        let ghost t = declared@.take(i + 1);
        proof {
            assert(t.drop_last() =~= declared@.take(i as int));
            assert(t[i as int] == declared@[i as int]);
            assert(ev[i as int] == entropy@[i as int]@);
        }
        let resolved: Option<String> = match override_env.get(name.as_str()) {
            Some(v) => Some(v.clone()),
            None => {
                let from_persisted = match persisted.get(name.as_str()) {
                    Some(v) => {
                        if v.as_str().unicode_len() > 0 {
                            Some(v.clone())
                        } else {
                            None
                        }
                    },
                    None => None,
                };
                match from_persisted {
                    Some(v) => Some(v),
                    None => match &p.default {
                        Some(d) => Some(d.clone()),
                        None => {
                            if p.kind == Some(ParameterKind::Secret) {
                                Some(hex_secret(entropy[i].as_slice()))
                            } else {
                                None
                            }
                        },
                    },
                }
            },
        };
        match resolved {
            Some(v) => {
                out.insert(name.clone(), v);
            },
            None => {
                if p.required {
                    let ghost before = missing@;
                    missing.push(name.clone());
                    proof {
                        assert(string_views(missing@) =~= string_views(before).push(name@));
                    }
                }
            },
        }
        i = i + 1;
    }
    proof {
        assert(declared@.take(declared.len() as int) =~= declared@);
    }
    if missing.len() > 0 {
        return Err(ParamError::MissingRequired { spell: String::from_str(spell_name), names: missing });
    }
    out.extend(override_env);
    Ok(out)
}


/// The first comment line of a written `.env` file.
pub open spec fn header_first() -> Seq<char> {
    "# Generated by grimoire \u{2014} re-cast to refresh."@
}

/// The second comment line of a written `.env` file.
pub open spec fn header_second() -> Seq<char> {
    "# To override values without losing them, edit"@
}

/// The third comment line of a written `.env` file.
pub open spec fn header_third() -> Seq<char> {
    "# ~/.config/grimoire/services/<spell-name>.env"@
}

/// The comment lines that open a written `.env` file, each with its newline.
pub open spec fn env_header() -> Seq<char> {
    header_first().push('\n') + header_second().push('\n') + header_third().push('\n')
}

/// The `KEY=VALUE` lines of the pairs, in order.
pub open spec fn env_body(pairs: Seq<(Seq<char>, Seq<char>)>) -> Seq<char>
    decreases pairs.len(),
{
    if pairs.len() == 0 {
        seq![]
    } else {
        env_body(pairs.drop_last()) + pairs.last().0 + seq!['='] + pairs.last().1 + seq!['\n']
    }
}

/// The text of the `.env` file written for `values`: the header comment,
/// then one `KEY=VALUE` line per key in ascending key order.
pub fn render_env(values: &EnvMap) -> (r: String)
    ensures
        r@ == env_header() + env_body(pair_views(values.entries())),
{
    let mut s = String::from_str("# Generated by grimoire \u{2014} re-cast to refresh.");
    s.append("\n");
    s.append("# To override values without losing them, edit");
    s.append("\n");
    s.append("# ~/.config/grimoire/services/<spell-name>.env");
    s.append("\n");
    proof {
        reveal_strlit("\n");
        assert(s@ =~= env_header());
    }
    let pairs = values.iter();
    let ghost pv = pair_views(pairs@);
    let mut i: usize = 0;
    proof {
        assert(pv.take(0) =~= Seq::<(Seq<char>, Seq<char>)>::empty());
        assert(s@ =~= env_header() + env_body(pv.take(0)));
    }
    while i < pairs.len()
        invariant
            i <= pairs.len(),
            pv == pair_views(pairs@),
            s@ == env_header() + env_body(pv.take(i as int)),
        decreases pairs.len() - i,
    {
        s.append(pairs[i].0.as_str());
        s.append("=");
        s.append(pairs[i].1.as_str());
        s.append("\n");
        proof {
            reveal_strlit("=");
            reveal_strlit("\n");
            assert(pv.take(i + 1).drop_last() =~= pv.take(i as int));
            assert(pv.take(i + 1).last() == (pairs@[i as int].0@, pairs@[i as int].1@));
            assert(s@ =~= env_header() + env_body(pv.take(i + 1)));
        }
        i = i + 1;
    }
    proof {
        assert(pv.take(pairs.len() as int) =~= pv);
    }
    s
}

/// The snippet that brings a compose project up.
pub open spec fn up_text(service_dir: Seq<char>, name: Seq<char>, file: Seq<char>) -> Seq<char> {
    "cd "@ + shell_word(service_dir) + "\ndocker compose -p "@ + shell_word(name) + " -f "@ + shell_word(file)
        + " up -d --remove-orphans"@
}

/// The shell snippet that runs `docker compose up` for the project `name`
/// from `service_dir` with the compose file `file`.
pub fn compose_up_snippet(service_dir: &str, name: &str, file: &str) -> (r: String)
    ensures
        r@ == up_text(service_dir@, name@, file@),
{
    let mut s = String::from_str("cd ");
    s.append(sh_quote(service_dir).as_str());
    s.append("\ndocker compose -p ");
    s.append(sh_quote(name).as_str());
    s.append(" -f ");
    s.append(sh_quote(file).as_str());
    s.append(" up -d --remove-orphans");
    s
}

/// The subtree of the repository to copy: `path` without trailing slashes,
/// or the repository root when nothing is left.
pub open spec fn source_subtree(path: Seq<char>) -> Seq<char> {
    if strip_end(path, '/').len() == 0 {
        "."@
    } else {
        strip_end(path, '/')
    }
}

/// The snippet that fetches a compose source.
pub open spec fn fetch_text(repo: Seq<char>, git_ref: Seq<char>, path: Seq<char>, dest: Seq<char>) -> Seq<char> {
    "tmp=$(mktemp -d)\ntrap 'rm -rf \"$tmp\"' EXIT\ngit clone --depth 1 --branch "@ + shell_word(git_ref) + " "@
        + shell_word(repo)
        + " \"$tmp\" >&2\n# `cp -T` (GNU): treat dest as a directory to fill, not a target to nest into.\ncp -RT \"$tmp\"/"@
        + source_subtree(path) + " "@ + shell_word(dest)
        + "\n# If `path` was the repo root, .git came along for the ride. Drop it.\nrm -rf "@ + shell_word(
        dest,
    ) + "/.git\n"@
}

/// The shell snippet that shallow-clones `repo` at `git_ref` into a temporary
/// directory, copies the contents of `path` into `dest`, and removes the
/// `.git` directory in case `path` was the repository root.
pub fn fetch_snippet(repo: &str, git_ref: &str, path: &str, dest: &str) -> (r: String)
    ensures
        r@ == fetch_text(repo@, git_ref@, path@, dest@),
{
    let trimmed = strip_end_str(path, '/');
    let sub = if trimmed.as_str().unicode_len() == 0 {
        String::from_str(".")
    } else {
        trimmed
    };
    let dq = sh_quote(dest);
    let mut s = String::from_str("tmp=$(mktemp -d)\ntrap 'rm -rf \"$tmp\"' EXIT\ngit clone --depth 1 --branch ");
    s.append(sh_quote(git_ref).as_str());
    s.append(" ");
    s.append(sh_quote(repo).as_str());
    s.append(
        " \"$tmp\" >&2\n# `cp -T` (GNU): treat dest as a directory to fill, not a target to nest into.\ncp -RT \"$tmp\"/",
    );
    s.append(sub.as_str());
    s.append(" ");
    s.append(dq.as_str());
    s.append("\n# If `path` was the repo root, .git came along for the ride. Drop it.\nrm -rf ");
    s.append(dq.as_str());
    s.append("/.git\n");
    s
}

/// Where a compose channel's project comes from.
#[derive(Debug, Clone)]
pub struct ComposeSource {
    pub repo: String,
    pub git_ref: String,
    pub path: String,
    /// The compose file within `path`.
    pub compose_file: String,
}

/// The source of a compose channel, its compose file defaulting to
/// `docker-compose.yml`. The channel's `repo`, `ref` and `path` are set, as
/// `Spell::validate` checks of a compose channel.
pub fn compose_source(channel: &Channel) -> (r: ComposeSource)
    requires
        channel.repo is Some,
        channel.git_ref is Some,
        channel.path is Some,
    ensures
        r.repo@ == channel.repo->0@,
        r.git_ref@ == channel.git_ref->0@,
        r.path@ == channel.path->0@,
        r.compose_file@ == match channel.compose_file {
            Some(f) => f@,
            None => default_compose_file(),
        },
{
    let compose_file = match &channel.compose_file {
        Some(f) => f.clone(),
        None => String::from_str("docker-compose.yml"),
    };
    let repo = match &channel.repo {
        Some(x) => x.clone(),
        None => String::new(),
    };
    let git_ref = match &channel.git_ref {
        Some(x) => x.clone(),
        None => String::new(),
    };
    let path = match &channel.path {
        Some(x) => x.clone(),
        None => String::new(),
    };
    ComposeSource { repo, git_ref, path, compose_file }
}


/// Whether `k` can stand as a key of a written `.env` file and be read back
/// as itself: not empty, no surrounding whitespace, not starting a comment,
/// and holding no `=` or newline.
pub open spec fn env_key_ok(k: Seq<char>) -> bool {
    &&& k.len() > 0
    &&& !is_ws(k[0])
    &&& !is_ws(k.last())
    &&& k[0] != '#'
    &&& forall|i: int| 0 <= i < k.len() ==> k[i] != '=' && k[i] != '\n'
}

/// Whether `v` can stand as a value of a written `.env` file and be read
/// back as itself: no newline, and no carriage return at its end.
pub open spec fn env_value_ok(v: Seq<char>) -> bool {
    &&& forall|i: int| 0 <= i < v.len() ==> v[i] != '\n'
    &&& v.len() > 0 ==> v.last() != '\r'
}

/// A `KEY=VALUE` line of a good key and value sets the key to the value.
proof fn lemma_env_line(m: Map<Seq<char>, Seq<char>>, k: Seq<char>, v: Seq<char>)
    requires
        env_key_ok(k),
        env_value_ok(v),
    ensures
        apply_env_line(m, k + seq!['='] + v) == m.insert(k, v),
{
    let l = k + seq!['='] + v;
    lemma_trim_start_at(l, 0);
    assert(l.subrange(0, l.len() as int) =~= l);
    assert(l[0] == k[0]);
    assert forall|i: int| 0 <= i < k.len() implies l[i] != '=' by {
        assert(l[i] == k[i]);
    }
    lemma_find_char_at(l, '=', k.len() as int);
    assert(l.subrange(0, k.len() as int) =~= k);
    assert(l.subrange(k.len() as int + 1, l.len() as int) =~= v);
    lemma_trim_start_at(k, 0);
    assert(k.subrange(0, k.len() as int) =~= k);
    lemma_trim_end_at(k, k.len() as int);
}

/// A comment line changes nothing.
proof fn lemma_comment_line(m: Map<Seq<char>, Seq<char>>, x: Seq<char>)
    requires
        x.len() > 0,
        x[0] == '#',
    ensures
        apply_env_line(m, x) == m,
{
    lemma_trim_start_at(x, 0);
    assert(x.subrange(0, x.len() as int) =~= x);
}

/// The written header holds no values.
proof fn lemma_header_text()
    ensures
        env_text(env_header()) == Map::<Seq<char>, Seq<char>>::empty(),
        env_header().len() > 0,
        env_header().last() == '\n',
{
    reveal_strlit("# Generated by grimoire \u{2014} re-cast to refresh.");
    reveal_strlit("# To override values without losing them, edit");
    reveal_strlit("# ~/.config/grimoire/services/<spell-name>.env");
    let a = header_first();
    let b = header_second();
    let c = header_third();
    let e = Seq::<char>::empty();
    assert(forall|i: int| 0 <= i < a.len() ==> a[i] != '\n');
    assert(forall|i: int| 0 <= i < b.len() ==> b[i] != '\n');
    assert(forall|i: int| 0 <= i < c.len() ==> c[i] != '\n');
    lemma_lines_push(e, a);
    assert(e + a.push('\n') =~= a.push('\n'));
    lemma_lines_push(a.push('\n'), b);
    lemma_lines_push(a.push('\n') + b.push('\n'), c);
    assert(lines(e) =~= Seq::<Seq<char>>::empty());
    let ls = seq![drop_cr(a), drop_cr(b), drop_cr(c)];
    assert(lines(env_header()) =~= ls);
    assert(drop_cr(a) == a && drop_cr(b) == b && drop_cr(c) == c);
    let m0 = Map::<Seq<char>, Seq<char>>::empty();
    lemma_comment_line(m0, a);
    lemma_comment_line(m0, b);
    lemma_comment_line(m0, c);
    let l1 = seq![a];
    let l2 = seq![a, b];
    assert(l1.drop_last() =~= Seq::<Seq<char>>::empty());
    assert(env_lines(l1.drop_last()) == m0);
    assert(l1.last() == a);
    assert(env_lines(l1) == m0);
    assert(l2.drop_last() =~= l1);
    assert(env_lines(l2) == m0);
    assert(ls.drop_last() =~= l2);
    assert(env_lines(ls) == m0);
}

/// What a written `.env` file is read back as: the text that `render_env`
/// writes for pairs of good keys and values, parsed as `parse_env` parses
/// it, gives back exactly the map of those pairs.
pub proof fn lemma_env_round_trip(s: Seq<(String, String)>)
    requires
        keys_ascend(s),
        forall|i: int| 0 <= i < s.len() ==> env_key_ok(#[trigger] s[i].0@) && env_value_ok(s[i].1@),
    ensures
        env_text(env_header() + env_body(pair_views(s))) == pairs_map(s),
    decreases s.len(),
{
    lemma_header_text();
    if s.len() == 0 {
        assert(env_body(pair_views(s)) =~= Seq::<char>::empty());
        assert(env_header() + env_body(pair_views(s)) =~= env_header());
        assert(pairs_map(s) =~= Map::<Seq<char>, Seq<char>>::empty());
    } else {
        let n = s.len() - 1;
        let prev = s.drop_last();
        assert(keys_ascend(prev));
        assert forall|i: int| 0 <= i < prev.len() implies env_key_ok(#[trigger] prev[i].0@) && env_value_ok(
            prev[i].1@,
        ) by {
            assert(prev[i] == s[i]);
        }
        lemma_env_round_trip(prev);
        let pv = pair_views(s);
        assert(pv.drop_last() =~= pair_views(prev));
        let k = s[n].0@;
        let v = s[n].1@;
        assert(pv.last() == (k, v));
        assert(env_key_ok(k) && env_value_ok(v));
        let t = env_header() + env_body(pair_views(prev));
        let x = k + seq!['='] + v;
        assert(env_body(pair_views(prev)).len() == 0 || env_body(pair_views(prev)).last() == '\n');
        assert(t.len() > 0 && t.last() == '\n') by {
            if env_body(pair_views(prev)).len() == 0 {
                assert(t =~= env_header());
            }
        }
        assert forall|i: int| 0 <= i < x.len() implies x[i] != '\n' by {
            if i < k.len() {
                assert(x[i] == k[i]);
            } else if i > k.len() {
                assert(x[i] == v[i - k.len() - 1]);
            }
        }
        lemma_lines_push(t, x);
        assert(t + x.push('\n') =~= env_header() + env_body(pv));
        assert(drop_cr(x) == x) by {
            if v.len() > 0 {
                assert(x.last() == v.last());
            }
        }
        let ls = lines(t).push(x);
        assert(ls.drop_last() =~= lines(t));
        lemma_env_line(env_text(t), k, v);
        crate::envmap::lemma_take_push(s, n);
        assert(s.take(n) =~= prev);
        assert(s.take(n + 1) =~= s);
    }
}

impl ParamError {
    /// The error as a sentence: the spell's name in double quotes and the
    /// missing parameters joined by commas.
    pub fn message(&self) -> (r: String)
        ensures
            match self {
                ParamError::MissingRequired { spell, names } => r@
                    == "compose channel: missing required parameter(s) for "@ + seq!['"'] + spell@
                    + seq!['"'] + ": "@ + crate::text::join(string_views(names@), ", "@),
            },
    {
        match self {
            ParamError::MissingRequired { spell, names } => {
                let mut s = String::from_str("compose channel: missing required parameter(s) for ");
                s.append("\"");
                s.append(spell.as_str());
                s.append("\"");
                s.append(": ");
                s.append(crate::text::join_strings(names, ", ").as_str());
                proof {
                    reveal_strlit("\"");
                }
                s
            },
        }
    }
}
} // verus!
