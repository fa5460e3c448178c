//! The Linux distribution this machine runs, as `/etc/os-release` names it.
//!
//! The file is read once by the program around the library; this module
//! turns its text into a [`Distro`]. The channel selector uses it to pick
//! which `cast.channels[*]` apply on this machine.
use crate::text::{
    chars_of, split, split_once, split_once_str, split_str, split_words, str_eq, strip_char,
    strip_char_str, string_views, trim, trim_str, words,
};
use vstd::prelude::*;

verus! {

#[derive(Debug, Clone, Default)]
pub struct Distro {
    /// Lowercase distribution identifier from `ID=`. e.g. `"fedora"`,
    /// `"ubuntu"`, `"arch"`. Empty if unknown.
    pub id: String,
    /// Distros this one is derived from, from `ID_LIKE=`. e.g. Mint reports
    /// `["ubuntu", "debian"]`. Empty if not present.
    pub id_like: Vec<String>,
}

impl Distro {
    /// Whether `target` is this distro's `ID` or one of its `ID_LIKE` entries.
    pub open spec fn spec_matches(&self, target: Seq<char>) -> bool {
        self.id@ == target || exists|i: int|
            0 <= i < self.id_like.len() && #[trigger] self.id_like@[i]@ == target
    }

    /// True if `target` matches this distro's `ID` or any entry in `ID_LIKE`.
    /// Comparison is exact, lowercase.
    pub fn matches(&self, target: &str) -> (r: bool)
        ensures
            r == self.spec_matches(target@),
    {
        if str_eq(self.id.as_str(), target) {
            return true;
        }
        let mut i: usize = 0;
        while i < self.id_like.len()
            invariant
                i <= self.id_like.len(),
                forall|j: int| 0 <= j < i ==> self.id_like@[j]@ != target@,
            decreases self.id_like.len() - i,
        {
            if str_eq(self.id_like[i].as_str(), target) {
                return true;
            }
            i = i + 1;
        }
        false
    }
}


/// The Unicode lowercase mapping of `s`, as `str::to_lowercase` gives it.
pub uninterp spec fn lowercase(s: Seq<char>) -> Seq<char>;

/// The ASCII lowercase of `c`: `A`..`Z` become `a`..`z`, others stay.
pub open spec fn ascii_lower(c: char) -> char {
    if 'A' <= c && c <= 'Z' {
        ((c as u32) + 32) as char
    } else {
        c
    }
}

/// Whether every character of `s` is ASCII.
pub open spec fn is_ascii_text(s: Seq<char>) -> bool {
    forall|i: int| 0 <= i < s.len() ==> (#[trigger] s[i] as u32) < 128
}

/// The lowercase of `s`: on ASCII text its ASCII lowercase, character by
/// character; on other text what `str::to_lowercase` gives.
pub open spec fn lower_text(s: Seq<char>) -> Seq<char> {
    if is_ascii_text(s) {
        s.map_values(|c: char| ascii_lower(c))
    } else {
        lowercase(s)
    }
}

/// Lowercase `s` by calling `str::to_lowercase`, which maps each character
/// by Unicode's default case mapping (no locale is consulted). The contract
/// names that result `lowercase(s@)`; of it, it states only that on ASCII
/// text it is the ASCII lowercase, character by character. The mapping of
/// other characters is left unsaid.
#[verifier::external_body]
fn to_lower(s: &str) -> (r: String)
    ensures
        r@ == lowercase(s@),
        is_ascii_text(s@) ==> r@ == s@.map_values(|c: char| ascii_lower(c)),
{
    s.to_lowercase()
}

/// Each of `ws` lowercased.
pub open spec fn lower_all(ws: Seq<Seq<char>>) -> Seq<Seq<char>> {
    ws.map_values(|w: Seq<char>| lower_text(w))
}

/// A distro by its characters: the `ID` and the `ID_LIKE` entries.
pub type DistroView = (Seq<char>, Seq<Seq<char>>);

/// The value of an `os-release` assignment: trimmed, then without
/// surrounding double and then single quotes.
pub open spec fn release_value(v: Seq<char>) -> Seq<char> {
    strip_char(strip_char(trim(v), '"'), '\'')
}

/// What one line of `os-release` does to the fields read so far: a blank or
/// `#` line, or one without `=`, does nothing; `ID=` sets the id, lowercased;
/// `ID_LIKE=` sets the lowercased words of its value; any other key does
/// nothing.
pub open spec fn apply_release_line(d: DistroView, line: Seq<char>) -> DistroView {
    let l = trim(line);
    if l.len() == 0 || l[0] == '#' {
        d
    } else {
        match split_once(l, '=') {
            None => d,
            Some((k, v)) => if trim(k) == "ID"@ {
                (lower_text(release_value(v)), d.1)
            } else if trim(k) == "ID_LIKE"@ {
                (d.0, lower_all(words(release_value(v))))
            } else {
                d
            },
        }
    }
}

/// The fields that the lines `lines` give, read in order from no fields.
pub open spec fn release_fields(lines: Seq<Seq<char>>) -> DistroView
    decreases lines.len(),
{
    if lines.len() == 0 {
        (seq![], seq![])
    } else {
        apply_release_line(release_fields(lines.drop_last()), lines.last())
    }
}

/// The distro that the text of an `os-release` file describes.
pub open spec fn os_release(content: Seq<char>) -> DistroView {
    release_fields(split(content, '\n'))
}

impl Distro {
    /// The distro's fields by their characters.
    pub open spec fn fields(&self) -> DistroView {
        (self.id@, string_views(self.id_like@))
    }
}

/// Each of the words lowercased.
fn lower_words(ws: Vec<String>) -> (r: Vec<String>)
    ensures
        string_views(r@) == lower_all(string_views(ws@)),
{
    let mut out: Vec<String> = Vec::new();
    let mut i: usize = 0;
    while i < ws.len()
        invariant
            i <= ws.len(),
            string_views(out@) == lower_all(string_views(ws@)).take(i as int),
        decreases ws.len() - i,
    {
        let w = to_lower(ws[i].as_str());
        let ghost before = out@;
        out.push(w);
        proof {
            assert(string_views(out@) =~= string_views(before).push(w@));
            assert(lower_all(string_views(ws@)).take(i + 1) =~= lower_all(string_views(ws@)).take(
                i as int,
            ).push(lower_text(ws@[i as int]@)));
        }
        i = i + 1;
    }
    proof {
        assert(lower_all(string_views(ws@)).take(ws.len() as int) =~= lower_all(string_views(ws@)));
    }
    out
}

/// Parse the text of an `os-release` file.
pub fn parse(content: &str) -> (d: Distro)
    ensures
        d.fields() == os_release(content@),
{
    let lines = split_str(content, '\n');
    let ghost ls = split(content@, '\n');
    let mut d = Distro { id: String::new(), id_like: Vec::new() };
    let mut i: usize = 0;
    proof {
        assert(ls.take(0) =~= Seq::<Seq<char>>::empty());
        assert(string_views(d.id_like@) =~= Seq::<Seq<char>>::empty());
    }
    while i < lines.len()
        invariant
            i <= lines.len(),
            string_views(lines@) == ls,
            d.fields() == release_fields(ls.take(i as int)),
        decreases lines.len() - i,
    {
        proof {
            assert(ls.take(i + 1).drop_last() =~= ls.take(i as int));
            assert(ls.take(i + 1).last() == lines@[i as int]@);
        }
        let line = trim_str(lines[i].as_str());
        let lc = chars_of(line.as_str());
        if lc.len() > 0 && lc[0] != '#' {
            match split_once_str(line.as_str(), '=') {
                None => {},
                Some((k, v)) => {
                    let key = trim_str(k.as_str());
                    let tv = trim_str(v.as_str());
                    let dq = strip_char_str(tv.as_str(), '"');
                    let value = strip_char_str(dq.as_str(), '\'');
                    if str_eq(key.as_str(), "ID") {
                        d.id = to_lower(value.as_str());
                    } else if str_eq(key.as_str(), "ID_LIKE") {
                        d.id_like = lower_words(split_words(value.as_str()));
                    }
                },
            }
        }
        i = i + 1;
    }
    proof {
        assert(ls.take(lines.len() as int) =~= ls);
    }
    d
}

} // verus!
