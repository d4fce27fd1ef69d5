//! Where the settings file lives, and the one setting read before the UI
//! starts: whether the debug console is shown.
use vstd::prelude::*;
use crate::ch34x_sidecar::{next_sep, split, split_chars};
use crate::plugin::occurs_in;
use crate::text::{chars_of, string_from_chars, str_eq};
use crate::unicode::{trim, trim_chars, unicode_lower};
use crate::unipkg::{eq_ignore_case, eq_ignore_ascii_case};

verus! {

/// Where the settings file is kept.
#[derive(Clone, Copy, Debug, PartialEq, Eq, Structural)]
pub enum SettingsLocation {
    /// `Setting.set` beside the executable (portable layout).
    Portable,
    /// `~/UniProgrammer/Setting.set` (installed layout).
    Home,
}

/// The choice of [`settings_location`].
pub open spec fn spec_settings_location(installed: bool, portable_exists: bool, home: Option<bool>, exe_writable: bool)
    -> SettingsLocation
{
    if installed {
        if home is Some { SettingsLocation::Home } else { SettingsLocation::Portable }
    } else if portable_exists {
        SettingsLocation::Portable
    } else if home == Some(true) {
        SettingsLocation::Home
    } else if exe_writable {
        SettingsLocation::Portable
    } else if home is Some {
        SettingsLocation::Home
    } else {
        SettingsLocation::Portable
    }
}

/// Choose the settings file: an installed program always uses the home
/// directory (when one is known); otherwise an existing file beside the
/// executable, then an existing one in the home directory, and for a fresh
/// start beside the executable when that directory is writable. `home` is
/// `None` when no home directory is known, else whether the file exists
/// there.
pub fn settings_location(installed: bool, portable_exists: bool, home: Option<bool>, exe_writable: bool)
    -> (r: SettingsLocation)
    ensures
        r == spec_settings_location(installed, portable_exists, home, exe_writable),
{
    if installed {
        return match home {
            Some(_) => SettingsLocation::Home,
            None => SettingsLocation::Portable,
        };
    }
    if portable_exists {
        return SettingsLocation::Portable;
    }
    if let Some(true) = home {
        return SettingsLocation::Home;
    }
    if exe_writable {
        SettingsLocation::Portable
    } else {
        match home {
            Some(_) => SettingsLocation::Home,
            None => SettingsLocation::Portable,
        }
    }
}

/// `s` lower-cased character by character (`char::to_lowercase`).
pub open spec fn lower_text(s: Seq<char>) -> Seq<char>
    decreases s.len(),
{
    if s.len() == 0 { Seq::empty() } else { lower_text(s.drop_last()) + unicode_lower(s.last()) }
}

fn lower_text_exec(s: &Vec<char>) -> (r: Vec<char>)
    ensures
        r@ == lower_text(s@),
{
    let mut out: Vec<char> = Vec::new();
    let mut i: usize = 0;
    assert(s@.take(0) =~= Seq::<char>::empty());
    while i < s.len()
        invariant
            i <= s@.len(),
            out@ == lower_text(s@.take(i as int)),
        decreases s@.len() - i,
    {
        assert(s@.take(i + 1).drop_last() =~= s@.take(i as int));
        let low = crate::unicode::to_lowercase(s[i]);
        crate::unicode::append_chars(&mut out, &low);
        i = i + 1;
    }
    assert(s@.take(s@.len() as int) =~= s@);
    out
}

/// `s` begins with `p`.
pub open spec fn starts_with(s: Seq<char>, p: Seq<char>) -> bool {
    p.len() <= s.len() && s.subrange(0, p.len() as int) == p
}

fn starts_with_exec(s: &Vec<char>, p: &str) -> (r: bool)
    ensures
        r == starts_with(s@, p@),
{
    let pc = chars_of(p);
    if pc.len() > s.len() {
        return false;
    }
    let mut i: usize = 0;
    while i < pc.len()
        invariant
            i <= pc@.len(),
            pc@.len() <= s@.len(),
            pc@ == p@,
            forall|k: int| 0 <= k < i ==> s@[k] == pc@[k],
        decreases pc@.len() - i,
    {
        if s[i] != pc[i] {
            assert(s@.subrange(0, pc@.len() as int)[i as int] != p@[i as int]);
            return false;
        }
        i = i + 1;
    }
    assert(s@.subrange(0, pc@.len() as int) =~= p@);
    true
}

/// A directory of an installed program: under `Program Files` on Windows
/// (case ignored), under `/usr/`, `/opt/`, `/snap/` or `/Applications/`
/// elsewhere.
pub open spec fn spec_looks_installed(dir: Seq<char>, windows: bool) -> bool {
    if windows {
        occurs_in(lower_text(dir), "\\program files"@) || occurs_in(lower_text(dir), "\\program files (x86)"@)
    } else {
        starts_with(dir, "/usr/"@) || starts_with(dir, "/opt/"@) || starts_with(dir, "/snap/"@)
            || starts_with(dir, "/Applications/"@)
    }
}

/// See [`spec_looks_installed`].
pub fn looks_installed(dir: &str, windows: bool) -> (r: bool)
    ensures
        r == spec_looks_installed(dir@, windows),
{
    let cs = chars_of(dir);
    if windows {
        let low = lower_text_exec(&cs);
        let a = chars_of("\\program files");
        let b = chars_of("\\program files (x86)");
        crate::plugin::occurs(&low, &a) || crate::plugin::occurs(&low, &b)
    } else {
        starts_with_exec(&cs, "/usr/") || starts_with_exec(&cs, "/opt/") || starts_with_exec(&cs, "/snap/")
            || starts_with_exec(&cs, "/Applications/")
    }
}

/// A value that turns a switch on: `true`, `1`, `yes` or `on`, ASCII case
/// ignored.
pub open spec fn truthy(v: Seq<char>) -> bool {
    eq_ignore_case(v, "true"@) || eq_ignore_case(v, "1"@) || eq_ignore_case(v, "yes"@) || eq_ignore_case(v, "on"@)
}

/// A `key = value` line setting `debugConsole` (key case ignored) to a
/// truthy value.
pub open spec fn enables_console(line: Seq<char>) -> bool {
    let e = next_sep(line, '=', 0);
    &&& e < line.len()
    &&& eq_ignore_case(trim(line.subrange(0, e)), "debugConsole"@)
    &&& truthy(trim(line.subrange(e + 1, line.len() as int)))
}

/// Whether the lines from here on turn the console on, `in_general` telling
/// whether the `[general]` section is open.
pub open spec fn console_on(lines: Seq<Seq<char>>, in_general: bool) -> bool
    decreases lines.len(),
{
    if lines.len() == 0 {
        false
    } else {
        let line = trim(lines[0]);
        if eq_ignore_case(line, "[general]"@) {
            console_on(lines.drop_first(), true)
        } else if line.len() > 0 && line[0] == '[' {
            console_on(lines.drop_first(), false)
        } else if in_general && enables_console(line) {
            true
        } else {
            console_on(lines.drop_first(), in_general)
        }
    }
}

fn truthy_exec(v: &str) -> (r: bool)
    ensures
        r == truthy(v@),
{
    eq_ignore_ascii_case(v, "true") || eq_ignore_ascii_case(v, "1") || eq_ignore_ascii_case(v, "yes")
        || eq_ignore_ascii_case(v, "on")
}

fn chars_between(cs: &Vec<char>, from: usize, to: usize) -> (r: Vec<char>)
    requires
        from <= to <= cs@.len(),
    ensures
        r@ == cs@.subrange(from as int, to as int),
{
    let mut v: Vec<char> = Vec::new();
    let mut i = from;
    while i < to
        invariant
            from <= i <= to,
            to <= cs@.len(),
            v@ == cs@.subrange(from as int, i as int),
        decreases to - i,
    {
        v.push(cs[i]);
        assert(v@ =~= cs@.subrange(from as int, i + 1));
        i = i + 1;
    }
    v
}

fn enables_console_exec(line: &Vec<char>) -> (r: bool)
    ensures
        r == enables_console(line@),
{
    let mut e: usize = 0;
    while e < line.len() && line[e] != '='
        invariant
            e <= line@.len(),
            next_sep(line@, '=', 0) == next_sep(line@, '=', e as int),
        decreases line@.len() - e,
    {
        e = e + 1;
    }
    if e >= line.len() {
        return false;
    }
    let key = trim_chars(chars_between(line, 0, e).as_slice());
    let value = trim_chars(chars_between(line, e + 1, line.len()).as_slice());
    eq_ignore_ascii_case(string_from_chars(key.as_slice()).as_str(), "debugConsole")
        && truthy_exec(string_from_chars(value.as_slice()).as_str())
}

/// Whether a settings text turns the debug console on: some line of its
/// `[general]` section (header case ignored) sets `debugConsole` to a
/// truthy value.
pub fn debug_console_enabled(content: &str) -> (r: bool)
    ensures
        r == console_on(split(content@, '\n'), false),
{
    let cs = chars_of(content);
    let lines = split_chars(cs.as_slice(), '\n');
    let ghost ls = split(content@, '\n');
    let mut in_general = false;
    let mut i: usize = 0;
    assert(ls.skip(0) =~= ls);
    while i < lines.len()
        invariant
            i <= lines@.len(),
            lines@.len() == ls.len(),
            ls == split(content@, '\n'),
            forall|k: int| 0 <= k < ls.len() ==> #[trigger] lines@[k]@ == ls[k],
            console_on(ls, false) == console_on(ls.skip(i as int), in_general),
        decreases lines@.len() - i,
    {
        assert(ls.skip(i as int)[0] == ls[i as int]);
        assert(ls.skip(i as int).drop_first() =~= ls.skip(i + 1));
        let line = trim_chars(lines[i].as_slice());
        let text = string_from_chars(line.as_slice());
        if eq_ignore_ascii_case(text.as_str(), "[general]") {
            in_general = true;
        } else if line.len() > 0 && line[0] == '[' {
            in_general = false;
        } else if in_general && enables_console_exec(&line) {
            assert(line@ == trim(ls.skip(i as int)[0]));
            assert(console_on(ls.skip(i as int), in_general));
            return true;
        }
        i = i + 1;
    }
    false
}

} // verus!
