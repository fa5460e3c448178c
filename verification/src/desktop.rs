//! XDG `.desktop` entries (and bundled icons) for spells that declare a
//! `desktop:` block.
//!
//! Many spells install software that doesn't auto-create a menu entry, and
//! the user is left with a working binary on `$PATH` but nothing they can
//! launch from their app menu. The `desktop:` block fixes that: grimoire
//! writes `~/.local/share/applications/<spell>.desktop` itself, and copies a
//! bundled icon into the user's hicolor tree so `Icon=<name>` resolves.
//! The files are written by the program around the library; this module
//! renders the entry and picks the icon's place.
use crate::spell::{DesktopEntry, Spell};
use crate::text::{chars_of, join, join_strings, string_views, str_eq};
use vstd::prelude::*;

verus! {

/// A `Key=value` line.
pub open spec fn entry_line(key: Seq<char>, value: Seq<char>) -> Seq<char> {
    key + "="@ + value + "\n"@
}

/// A list-valued line: the items joined by `;`, with the trailing `;` the
/// spec requires; nothing for an empty list.
pub open spec fn list_line(key: Seq<char>, items: Seq<Seq<char>>) -> Seq<char> {
    if items.len() == 0 {
        seq![]
    } else {
        entry_line(key, join(items, ";"@) + ";"@)
    }
}

/// An optional line: nothing when the value is absent.
pub open spec fn opt_line(key: Seq<char>, value: Option<String>) -> Seq<char> {
    match value {
        Some(v) => entry_line(key, v@),
        None => seq![],
    }
}

/// The body of the `.desktop` file for a spell with summary `summary` and
/// desktop block `d`. The comment falls back to the summary.
pub open spec fn desktop_text(summary: Seq<char>, d: DesktopEntry) -> Seq<char> {
    "[Desktop Entry]\nVersion=1.0\nType=Application\n"@ + entry_line("Name"@, d.name@) + entry_line(
        "Comment"@,
        match d.comment {
            Some(c) => c@,
            None => summary,
        },
    ) + entry_line("Exec"@, d.command@) + opt_line("Icon"@, d.icon) + entry_line(
        "Terminal"@,
        if d.terminal {
            "true"@
        } else {
            "false"@
        },
    ) + list_line("Categories"@, string_views(d.categories@)) + list_line(
        "MimeType"@,
        string_views(d.mime_types@),
    ) + opt_line("StartupWMClass"@, d.startup_wm_class)
}

/// Append `key=value\n` to `s`.
fn push_line(s: &mut String, key: &str, value: &str)
    ensures
        final(s)@ == old(s)@ + entry_line(key@, value@),
{
    s.append(key);
    s.append("=");
    s.append(value);
    s.append("\n");
}

/// Append the list line of `items` to `s`.
fn push_list(s: &mut String, key: &str, items: &Vec<String>)
    ensures
        final(s)@ == old(s)@ + list_line(key@, string_views(items@)),
{
    if items.len() > 0 {
        let mut v = join_strings(items, ";");
        v.append(";");
        push_line(s, key, v.as_str());
    } else {
        assert(string_views(items@).len() == 0);
    }
}

/// Render a `.desktop` file body. Per the XDG Desktop Entry spec, `Type`,
/// `Name`, and `Exec` are required for an `Application` entry; everything
/// else is optional.
pub fn render(spell: &Spell, d: &DesktopEntry) -> (r: String)
    ensures
        r@ == desktop_text(spell.summary@, *d),
{
    let mut s = String::from_str("[Desktop Entry]\nVersion=1.0\nType=Application\n");
    push_line(&mut s, "Name", d.name.as_str());
    let comment: &str = match &d.comment {
        Some(c) => c.as_str(),
        None => spell.summary.as_str(),
    };
    push_line(&mut s, "Comment", comment);
    push_line(&mut s, "Exec", d.command.as_str());
    match &d.icon {
        Some(icon) => push_line(&mut s, "Icon", icon.as_str()),
        None => {},
    }
    push_line(&mut s, "Terminal", if d.terminal {
        "true"
    } else {
        "false"
    });
    push_list(&mut s, "Categories", &d.categories);
    push_list(&mut s, "MimeType", &d.mime_types);
    match &d.startup_wm_class {
        Some(class) => push_line(&mut s, "StartupWMClass", class.as_str()),
        None => {},
    }
    proof {
        assert(s@ =~= desktop_text(spell.summary@, *d));
    }
    s
}

/// The hicolor size directory for an icon of extension `ext`.
pub open spec fn bucket_of(ext: Seq<char>) -> Option<Seq<char>> {
    if ext == "svg"@ {
        Some("scalable"@)
    } else if ext == "png"@ {
        Some("256x256"@)
    } else {
        None
    }
}

/// The hicolor size directory for an icon of extension `ext`: SVG goes to
/// `scalable`, PNG to `256x256`; other formats are not installed.
pub fn hicolor_bucket(ext: &str) -> (r: Option<&'static str>)
    ensures
        match r {
            Some(b) => bucket_of(ext@) == Some(b@),
            None => bucket_of(ext@) is None,
        },
{
    if str_eq(ext, "svg") {
        Some("scalable")
    } else if str_eq(ext, "png") {
        Some("256x256")
    } else {
        None
    }
}

/// Whether the icon is an absolute path, which the spell's author has put
/// in place, rather than a name to look up among the bundled icons.
pub fn icon_is_path(icon: &str) -> (r: bool)
    ensures
        r == (icon@.len() > 0 && icon@[0] == '/'),
{
    let v = chars_of(icon);
    v.len() > 0 && v[0] == '/'
}

} // verus!
