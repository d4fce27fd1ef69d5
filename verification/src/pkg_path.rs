//! Path rules of plugin packages: plugin names, archive entry names, and
//! the relative paths a package may serve. Paths follow Windows rules, the
//! product's platform: `/` and `\` both separate, and a drive prefix such
//! as `C:` makes a path absolute.
use vstd::prelude::*;
use crate::ch34x_sidecar::{split, split_chars};
use crate::text::{chars_of, string_from_chars, str_eq};

verus! {

/// A path separator.
pub open spec fn is_sep(c: char) -> bool {
    c == '/' || c == '\\'
}

/// `s` with every `\` turned into `/`.
pub open spec fn forward_slashes(s: Seq<char>) -> Seq<char> {
    Seq::new(s.len(), |i: int| if s[i] == '\\' { '/' } else { s[i] })
}

/// `s` begins with a drive prefix: an ASCII letter and `:`.
pub open spec fn has_drive(s: Seq<char>) -> bool {
    s.len() >= 2 && (('a' <= s[0] && s[0] <= 'z') || ('A' <= s[0] && s[0] <= 'Z')) && s[1] == ':'
}

/// `s` begins at the root (a separator).
pub open spec fn rooted(s: Seq<char>) -> bool {
    s.len() > 0 && is_sep(s[0])
}

/// The parts of `s` between separators (empty parts included).
pub open spec fn path_parts(s: Seq<char>) -> Seq<Seq<char>> {
    split(forward_slashes(s), '/')
}

/// Some part of `s` is `..`.
pub open spec fn has_parent_part(s: Seq<char>) -> bool {
    exists|i: int| 0 <= i < path_parts(s).len() && #[trigger] path_parts(s)[i] == ".."@
}

/// A relative path that stays inside its root: no drive, no root, no `..`
/// part, and not starting with a `.` part.
pub open spec fn spec_safe_relative(s: Seq<char>) -> bool {
    &&& !has_drive(s)
    &&& !rooted(s)
    &&& !has_parent_part(s)
    &&& path_parts(s)[0] != "."@
}

/// The normal parts of `s`: its non-empty parts other than `.`.
pub open spec fn normal_parts(p: Seq<Seq<char>>) -> Seq<Seq<char>>
    decreases p.len(),
{
    if p.len() == 0 {
        Seq::empty()
    } else {
        let r = normal_parts(p.drop_last());
        if p.last().len() == 0 || p.last() == "."@ { r } else { r.push(p.last()) }
    }
}

fn forward_slashes_exec(s: &str) -> (r: Vec<char>)
    ensures
        r@ == forward_slashes(s@),
{
    let cs = chars_of(s);
    let mut out: Vec<char> = Vec::new();
    let mut i: usize = 0;
    while i < cs.len()
        invariant
            i <= cs@.len(),
            cs@ == s@,
            out@ == forward_slashes(s@).take(i as int),
        decreases cs@.len() - i,
    {
        let c = if cs[i] == '\\' { '/' } else { cs[i] };
        out.push(c);
        assert(out@ =~= forward_slashes(s@).take(i + 1));
        i = i + 1;
    }
    assert(out@ =~= forward_slashes(s@));
    out
}

fn chars_eq_str(a: &Vec<char>, b: &str) -> (r: bool)
    ensures
        r == (a@ == b@),
{
    let bs = chars_of(b);
    if a.len() != bs.len() {
        return false;
    }
    let mut i: usize = 0;
    while i < a.len()
        invariant
            i <= a@.len(),
            a@.len() == bs@.len(),
            bs@ == b@,
            forall|k: int| 0 <= k < i ==> a@[k] == bs@[k],
        decreases a@.len() - i,
    {
        if a[i] != bs[i] {
            return false;
        }
        i = i + 1;
    }
    assert(a@ =~= bs@);
    true
}

fn has_drive_exec(s: &Vec<char>) -> (r: bool)
    ensures
        r == has_drive(s@),
{
    s.len() >= 2 && (('a' <= s[0] && s[0] <= 'z') || ('A' <= s[0] && s[0] <= 'Z')) && s[1] == ':'
}

fn any_parent(parts: &Vec<Vec<char>>) -> (r: bool)
    ensures
        r == exists|i: int| 0 <= i < parts@.len() && #[trigger] parts@[i]@ == ".."@,
{
    let mut i: usize = 0;
    while i < parts.len()
        invariant
            i <= parts@.len(),
            forall|k: int| 0 <= k < i ==> #[trigger] parts@[k]@ != ".."@,
        decreases parts@.len() - i,
    {
        if chars_eq_str(&parts[i], "..") {
            return true;
        }
        i = i + 1;
    }
    false
}

proof fn lemma_split_nonempty(s: Seq<char>, sep: char)
    ensures
        split(s, sep).len() >= 1,
{
    crate::ch34x_sidecar::lemma_next_sep(s, sep, 0);
}

/// Whether `path` is a relative path that stays inside the package root.
pub fn safe_relative_path(path: &str) -> (r: bool)
    ensures
        r == spec_safe_relative(path@),
{
    let norm = forward_slashes_exec(path);
    let parts = split_chars(norm.as_slice(), '/');
    proof {
        lemma_split_nonempty(forward_slashes(path@), '/');
    }
    let raw = chars_of(path);
    if has_drive_exec(&raw) {
        return false;
    }
    if raw.len() > 0 && (raw[0] == '/' || raw[0] == '\\') {
        return false;
    }
    let parent = any_parent(&parts);
    assert(parent == has_parent_part(path@)) by {
        if parent {
            let i = choose|i: int| 0 <= i < parts@.len() && #[trigger] parts@[i]@ == ".."@;
            assert(path_parts(path@)[i] == ".."@);
        }
        if has_parent_part(path@) {
            let i = choose|i: int| 0 <= i < path_parts(path@).len() && #[trigger] path_parts(path@)[i] == ".."@;
            assert(parts@[i]@ == ".."@);
        }
    }
    if parent {
        return false;
    }
    !chars_eq_str(&parts[0], ".")
}

/// A plugin name usable as one directory name: not empty, no separator,
/// no drive, not `.` or `..`.
pub open spec fn valid_plugin_name(n: Seq<char>) -> bool {
    &&& n.len() > 0
    &&& forall|i: int| 0 <= i < n.len() ==> !is_sep(#[trigger] n[i])
    &&& !has_drive(n)
    &&& n != "."@
    &&& n != ".."@
}

/// Check a plugin name before it becomes a directory name.
pub fn validate_plugin_name(name: &str) -> (r: Result<(), String>)
    ensures
        r is Ok <==> valid_plugin_name(name@),
{
    let cs = chars_of(name);
    if cs.len() == 0 {
        return Err(String::from_str("plugin manifest package.name is empty"));
    }
    let mut i: usize = 0;
    while i < cs.len()
        invariant
            i <= cs@.len(),
            cs@ == name@,
            forall|k: int| 0 <= k < i ==> !is_sep(#[trigger] cs@[k]),
        decreases cs@.len() - i,
    {
        if cs[i] == '/' || cs[i] == '\\' {
            return Err(crate::text::msg_join3("invalid plugin name '", name, "': path separators are not allowed"));
        }
        i = i + 1;
    }
    if has_drive_exec(&cs) || str_eq(name, ".") || str_eq(name, "..") {
        return Err(crate::text::msg_join3("invalid plugin name '", name, "'"));
    }
    Ok(())
}

/// `s` with leading `./` pairs removed, one after the other.
pub open spec fn strip_dot_slash(s: Seq<char>) -> Seq<char>
    decreases s.len(),
{
    if s.len() >= 2 && s[0] == '.' && s[1] == '/' {
        strip_dot_slash(s.subrange(2, s.len() as int))
    } else {
        s
    }
}

/// An archive entry name as compared with the root manifest names:
/// backslashes made forward, leading `./` removed.
pub fn normalized_entry_name(name: &str) -> (r: String)
    ensures
        r@ == strip_dot_slash(forward_slashes(name@)),
{
    let cs = forward_slashes_exec(name);
    let mut start: usize = 0;
    assert(cs@.subrange(0, cs@.len() as int) =~= cs@);
    while cs.len() - start >= 2 && cs[start] == '.' && cs[start + 1] == '/'
        invariant
            start <= cs@.len(),
            strip_dot_slash(cs@) == strip_dot_slash(cs@.subrange(start as int, cs@.len() as int)),
        decreases cs@.len() - start,
    {
        let ghost t = cs@.subrange(start as int, cs@.len() as int);
        assert(t.subrange(2, t.len() as int) =~= cs@.subrange(start + 2, cs@.len() as int));
        start = start + 2;
    }
    let ghost t = cs@.subrange(start as int, cs@.len() as int);
    assert(strip_dot_slash(t) == t);
    let mut rest: Vec<char> = Vec::new();
    let mut i = start;
    while i < cs.len()
        invariant
            start <= i <= cs@.len(),
            rest@ == cs@.subrange(start as int, i as int),
        decreases cs@.len() - i,
    {
        rest.push(cs[i]);
        assert(rest@ =~= cs@.subrange(start as int, i + 1));
        i = i + 1;
    }
    string_from_chars(rest.as_slice())
}

/// Whether an archive entry is a manifest at the package root.
pub fn is_root_manifest(entry_name: &str) -> (r: bool)
    ensures
        r == (strip_dot_slash(forward_slashes(entry_name@)) == "unipkg.toml"@
            || strip_dot_slash(forward_slashes(entry_name@)) == "manifest.toml"@),
{
    let n = normalized_entry_name(entry_name);
    str_eq(n.as_str(), "unipkg.toml") || str_eq(n.as_str(), "manifest.toml")
}

/// No character of `s` is a separator.
pub open spec fn no_sep(s: Seq<char>) -> bool {
    forall|i: int| 0 <= i < s.len() ==> !is_sep(#[trigger] s[i])
}

proof fn lemma_next_sep_run(s: Seq<char>, sep: char, i: int)
    requires
        0 <= i <= s.len(),
    ensures
        forall|t: int| i <= t < crate::ch34x_sidecar::next_sep(s, sep, i) ==> #[trigger] s[t] != sep,
    decreases s.len() - i,
{
    if i < s.len() && s[i] != sep {
        lemma_next_sep_run(s, sep, i + 1);
    }
}

/// The parts of a `/`-split text without `\` hold no separator.
proof fn lemma_split_parts(s: Seq<char>, i: int)
    requires
        0 <= i <= s.len(),
        forall|t: int| 0 <= t < s.len() ==> #[trigger] s[t] != '\\',
    ensures
        forall|k: int| 0 <= k < crate::ch34x_sidecar::split_from(s, '/', i).len()
            ==> no_sep(#[trigger] crate::ch34x_sidecar::split_from(s, '/', i)[k]),
    decreases s.len() - i,
{
    let e = crate::ch34x_sidecar::next_sep(s, '/', i);
    crate::ch34x_sidecar::lemma_next_sep(s, '/', i);
    lemma_next_sep_run(s, '/', i);
    let first = s.subrange(i, e);
    assert(no_sep(first)) by {
        assert forall|t: int| 0 <= t < first.len() implies !is_sep(#[trigger] first[t]) by {
            assert(first[t] == s[i + t]);
        }
    }
    if e < s.len() {
        lemma_split_parts(s, e + 1);
        let r = crate::ch34x_sidecar::split_from(s, '/', e + 1);
        assert(crate::ch34x_sidecar::split_from(s, '/', i) == seq![first] + r);
        assert forall|k: int| 0 <= k < (seq![first] + r).len() implies no_sep(#[trigger] (seq![first] + r)[k]) by {
            if k > 0 {
                assert((seq![first] + r)[k] == r[k - 1]);
            }
        }
    }
}

/// Every normal part is one of the parts, not empty and not `.`.
proof fn lemma_normal_parts(p: Seq<Seq<char>>)
    ensures
        forall|k: int| 0 <= k < normal_parts(p).len() ==> p.contains(#[trigger] normal_parts(p)[k])
            && normal_parts(p)[k].len() > 0 && normal_parts(p)[k] != "."@,
    decreases p.len(),
{
    if p.len() > 0 {
        lemma_normal_parts(p.drop_last());
        let r = normal_parts(p.drop_last());
        assert forall|k: int| 0 <= k < normal_parts(p).len() implies p.contains(#[trigger] normal_parts(p)[k])
            && normal_parts(p)[k].len() > 0 && normal_parts(p)[k] != "."@ by {
            if k < r.len() {
                assert(normal_parts(p)[k] == r[k]);
                let j = choose|j: int| 0 <= j < p.drop_last().len() && p.drop_last()[j] == r[k];
                assert(p[j] == r[k]);
            } else {
                assert(normal_parts(p)[k] == p.last());
                assert(p[p.len() - 1] == p.last());
            }
        }
    }
}

/// The parts an archive entry may be written to stay inside the package:
/// each is a plain name, neither empty nor `.` or `..`, with no separator.
pub proof fn lemma_entry_parts_stay_inside(name: Seq<char>)
    requires
        !has_parent_part(name),
    ensures
        forall|k: int| 0 <= k < normal_parts(path_parts(name)).len() ==> {
            let part = #[trigger] normal_parts(path_parts(name))[k];
            &&& part.len() > 0
            &&& part != "."@
            &&& part != ".."@
            &&& no_sep(part)
        },
{
    let f = forward_slashes(name);
    assert forall|t: int| 0 <= t < f.len() implies #[trigger] f[t] != '\\' by {}
    lemma_split_parts(f, 0);
    lemma_normal_parts(path_parts(name));
    let p = path_parts(name);
    assert forall|k: int| 0 <= k < normal_parts(p).len() implies {
        let part = #[trigger] normal_parts(p)[k];
        &&& part.len() > 0
        &&& part != "."@
        &&& part != ".."@
        &&& no_sep(part)
    } by {
        let part = normal_parts(p)[k];
        assert(p.contains(part));
        let j = choose|j: int| 0 <= j < p.len() && p[j] == part;
        assert(no_sep(p[j]));
        if part == ".."@ {
            assert(path_parts(name)[j] == ".."@);
        }
    }
}

/// Where an archive entry goes inside the package: its normal parts, or
/// `Err` when it has a drive, starts at the root, has a `..` part, or has
/// no normal part at all.
pub fn safe_entry_path(name: &str) -> (r: Result<Vec<String>, String>)
    ensures
        match r {
            Ok(v) => !has_drive(name@) && !rooted(name@) && !has_parent_part(name@)
                && crate::order::texts(v@) == normal_parts(path_parts(name@))
                && normal_parts(path_parts(name@)).len() > 0,
            Err(e) => (has_drive(name@) || rooted(name@) || has_parent_part(name@)
                || normal_parts(path_parts(name@)).len() == 0)
                && e@ == "unsafe path in ZIP package: \""@ + name@ + "\" (must stay inside package root)"@,
        },
{
    let norm = forward_slashes_exec(name);
    let parts = split_chars(norm.as_slice(), '/');
    let raw = chars_of(name);
    let unsafe_msg = crate::text::msg_join3("unsafe path in ZIP package: \"", name, "\" (must stay inside package root)");
    if has_drive_exec(&raw) || (raw.len() > 0 && (raw[0] == '/' || raw[0] == '\\')) {
        return Err(unsafe_msg);
    }
    let ghost pp = path_parts(name@);
    let mut out: Vec<String> = Vec::new();
    let mut i: usize = 0;
    assert(pp.take(0) =~= Seq::<Seq<char>>::empty());
    assert(crate::order::texts(out@) =~= Seq::<Seq<char>>::empty());
    while i < parts.len()
        invariant
            i <= parts@.len(),
            parts@.len() == pp.len(),
            pp == path_parts(name@),
            forall|k: int| 0 <= k < parts@.len() ==> #[trigger] parts@[k]@ == pp[k],
            forall|k: int| 0 <= k < i ==> #[trigger] pp[k] != ".."@,
            crate::order::texts(out@) == normal_parts(pp.take(i as int)),
            unsafe_msg@ == "unsafe path in ZIP package: \""@ + name@ + "\" (must stay inside package root)"@,
        decreases parts@.len() - i,
    {
        assert(pp.take(i + 1).drop_last() =~= pp.take(i as int));
        assert(pp.take(i + 1).last() == pp[i as int]);
        if chars_eq_str(&parts[i], "..") {
            assert(path_parts(name@)[i as int] == ".."@);
            return Err(unsafe_msg);
        }
        let ghost o0 = crate::order::texts(out@);
        if parts[i].len() > 0 && !chars_eq_str(&parts[i], ".") {
            out.push(string_from_chars(parts[i].as_slice()));
            assert(crate::order::texts(out@) =~= o0.push(pp[i as int]));
        }
        i = i + 1;
    }
    assert(pp.take(pp.len() as int) =~= pp);
    assert(!has_parent_part(name@)) by {
        if has_parent_part(name@) {
            let k = choose|k: int| 0 <= k < path_parts(name@).len() && #[trigger] path_parts(name@)[k] == ".."@;
            assert(pp[k] != ".."@);
        }
    }
    if out.len() == 0 {
        return Err(unsafe_msg);
    }
    Ok(out)
}

} // verus!
