//! The `unipkg://` protocol's rules: which UI plugin packages it serves,
//! how a request names a plugin and a file, which files may be served,
//! their content types, and the error page.
use vstd::prelude::*;
use crate::ch34x_sidecar::next_sep;
use crate::pkg_path::{safe_relative_path, spec_safe_relative};
use crate::plugin::{LoadedPlugin, PluginKind, PluginManager};
use crate::text::{chars_of, str_eq, string_from_chars};

verus! {

/// The web root of one UI plugin package.
#[derive(Debug, Clone)]
pub struct WebPluginAsset {
    pub name: String,
    /// The package directory.
    pub package_dir: String,
    /// The file served for the package root.
    pub entry: String,
}

/// The UI plugin packages a protocol serves: `(name, package directory,
/// entry)` of each loaded UI plugin in order, an entry `builtin` standing
/// for `dist/index.html`.
pub open spec fn ui_assets(plugins: Seq<LoadedPlugin>) -> Seq<(Seq<char>, Seq<char>, Seq<char>)>
    decreases plugins.len(),
{
    if plugins.len() == 0 {
        Seq::empty()
    } else {
        let r = ui_assets(plugins.drop_last());
        let p = plugins.last();
        if p.manifest.kind == PluginKind::Ui {
            let entry = if p.manifest.entry@ == "builtin"@ { "dist/index.html"@ } else { p.manifest.entry@ };
            r.push((p.manifest.name@, p.path@, entry))
        } else {
            r
        }
    }
}

/// The plain value of an asset.
pub open spec fn asset_view(a: WebPluginAsset) -> (Seq<char>, Seq<char>, Seq<char>) {
    (a.name@, a.package_dir@, a.entry@)
}

/// The last asset named `name` (a later package of that name replaces an
/// earlier one).
pub open spec fn last_named(s: Seq<(Seq<char>, Seq<char>, Seq<char>)>, name: Seq<char>) -> Option<int>
    decreases s.len(),
{
    if s.len() == 0 {
        None
    } else if s.last().0 == name {
        Some(s.len() - 1)
    } else {
        last_named(s.drop_last(), name)
    }
}

/// A snapshot of every UI plugin package that can be served.
#[derive(Debug)]
pub struct UnipkgProtocol {
    plugins: Vec<WebPluginAsset>,
}

impl UnipkgProtocol {
    /// The served packages as plain values.
    pub closed spec fn assets(&self) -> Seq<(Seq<char>, Seq<char>, Seq<char>)> {
        Seq::new(self.plugins@.len(), |i: int| asset_view(self.plugins@[i]))
    }

    /// The UI plugins of `manager`.
    pub fn from_manager(manager: &PluginManager) -> (r: UnipkgProtocol)
        ensures
            r.assets() == ui_assets(manager.plugins@),
    {
        let mut out: Vec<WebPluginAsset> = Vec::new();
        let ghost ps = manager.plugins@;
        let mut i: usize = 0;
        assert(ps.take(0) =~= Seq::<LoadedPlugin>::empty());
        while i < manager.plugins.len()
            invariant
                i <= ps.len(),
                ps == manager.plugins@,
                Seq::new(out@.len(), |k: int| asset_view(out@[k])) == ui_assets(ps.take(i as int)),
            decreases ps.len() - i,
        {
            assert(ps.take(i + 1).drop_last() =~= ps.take(i as int));
            assert(ps.take(i + 1).last() == ps[i as int]);
            let ghost o0 = Seq::new(out@.len(), |k: int| asset_view(out@[k]));
            let p = &manager.plugins[i];
            match p.manifest.kind {
                PluginKind::Ui => {
                    let entry = if str_eq(p.manifest.entry.as_str(), "builtin") {
                        String::from_str("dist/index.html")
                    } else {
                        p.manifest.entry.clone()
                    };
                    proof {
                        reveal_strlit("dist/index.html");
                    }
                    out.push(WebPluginAsset { name: p.manifest.name.clone(), package_dir: p.path.clone(), entry });
                    assert(Seq::new(out@.len(), |k: int| asset_view(out@[k])) =~= o0.push(asset_view(out@[o0.len() as int])));
                },
                _ => {},
            }
            i = i + 1;
        }
        assert(ps.take(ps.len() as int) =~= ps);
        let r = UnipkgProtocol { plugins: out };
        assert(r.assets() =~= Seq::new(out@.len(), |k: int| asset_view(out@[k])));
        r
    }

    /// The package named `name`.
    pub fn get(&self, name: &str) -> (r: Option<&WebPluginAsset>)
        ensures
            match r {
                Some(a) => last_named(self.assets(), name@) matches Some(i) && asset_view(*a) == self.assets()[i],
                None => last_named(self.assets(), name@) is None,
            },
    {
        let ghost s = self.assets();
        let mut i = self.plugins.len();
        assert(s.take(i as int) =~= s);
        while i > 0
            invariant
                i <= self.plugins@.len(),
                s == self.assets(),
                last_named(s, name@) == last_named(s.take(i as int), name@),
            decreases i,
        {
            let ghost t = s.take(i as int);
            assert(t.drop_last() =~= s.take(i - 1));
            assert(t.last() == s[i - 1]);
            if str_eq(self.plugins[i - 1].name.as_str(), name) {
                return Some(&self.plugins[i - 1]);
            }
            i = i - 1;
        }
        None
    }
}

/// `s` without its leading `/` characters.
pub open spec fn trim_slashes(s: Seq<char>) -> Seq<char>
    decreases s.len(),
{
    if s.len() > 0 && s[0] == '/' { trim_slashes(s.drop_first()) } else { s }
}

/// `s` split at its first `/` (everything and an empty rest when it has
/// none).
pub open spec fn split_first_slash(s: Seq<char>) -> (Seq<char>, Seq<char>) {
    let e = next_sep(s, '/', 0);
    if e < s.len() {
        (s.subrange(0, e), s.subrange(e + 1, s.len() as int))
    } else {
        (s, Seq::empty())
    }
}

/// The plugin and the file a request names. The canonical form is
/// `unipkg://localhost/<plugin>/<path>`; the older `unipkg://<plugin>/<path>`
/// names the plugin by its host.
pub open spec fn spec_request_target(host: Seq<char>, path: Seq<char>) -> (Seq<char>, Seq<char>) {
    if host == "localhost"@ {
        split_first_slash(trim_slashes(path))
    } else {
        (host, trim_slashes(path))
    }
}

fn copy_from(cs: &Vec<char>, from: usize, to: usize) -> (r: String)
    requires
        from <= to <= cs@.len(),
    ensures
        r@ == cs@.subrange(from as int, to as int),
{
    let mut v: Vec<char> = Vec::new();
    let mut i = from;
    while i < to
        invariant
            from <= i <= to,
            to <= cs@.len(),
            v@ == cs@.subrange(from as int, i as int),
        decreases to - i,
    {
        v.push(cs[i]);
        assert(v@ =~= cs@.subrange(from as int, i + 1));
        i = i + 1;
    }
    string_from_chars(v.as_slice())
}

/// See [`spec_request_target`].
pub fn request_target(host: &str, path: &str) -> (r: (String, String))
    ensures
        (r.0@, r.1@) == spec_request_target(host@, path@),
{
    let cs = chars_of(path);
    let mut start: usize = 0;
    assert(cs@.subrange(0, cs@.len() as int) =~= cs@);
    while start < cs.len() && cs[start] == '/'
        invariant
            start <= cs@.len(),
            cs@ == path@,
            trim_slashes(path@) == trim_slashes(cs@.subrange(start as int, cs@.len() as int)),
        decreases cs@.len() - start,
    {
        assert(cs@.subrange(start as int, cs@.len() as int).drop_first() =~= cs@.subrange(start + 1, cs@.len() as int));
        start = start + 1;
    }
    let ghost t = cs@.subrange(start as int, cs@.len() as int);
    assert(trim_slashes(t) == t);
    if !str_eq(host, "localhost") {
        return (String::from_str(host), copy_from(&cs, start, cs.len()));
    }
    let mut e = start;
    while e < cs.len() && cs[e] != '/'
        invariant
            start <= e <= cs@.len(),
            t == cs@.subrange(start as int, cs@.len() as int),
            next_sep(t, '/', 0) == next_sep(t, '/', e - start),
        decreases cs@.len() - e,
    {
        e = e + 1;
    }
    assert(next_sep(t, '/', e - start) == e - start);
    if e < cs.len() {
        assert(cs@.subrange(start as int, e as int) =~= t.subrange(0, e - start));
        assert(cs@.subrange(e + 1, cs@.len() as int) =~= t.subrange(e - start + 1, t.len() as int));
        (copy_from(&cs, start, e), copy_from(&cs, e + 1, cs.len()))
    } else {
        proof {
            reveal_strlit("");
        }
        assert(t.subrange(0, t.len() as int) =~= t);
        (copy_from(&cs, start, cs.len()), String::from_str(""))
    }
}

/// Where a request leads: the plugin's package directory and the file
/// relative to it (the entry for the package root), or an HTTP status with
/// a message (404 for an unknown plugin, 403 for a path leaving the
/// package).
pub open spec fn spec_resolve(assets: Seq<(Seq<char>, Seq<char>, Seq<char>)>, host: Seq<char>, path: Seq<char>)
    -> Result<(Seq<char>, Seq<char>), u16>
{
    let (name, rest) = spec_request_target(host, path);
    match last_named(assets, name) {
        None => Err(404u16),
        Some(i) => if rest.len() == 0 {
            Ok((assets[i].1, assets[i].2))
        } else if spec_safe_relative(rest) {
            Ok((assets[i].1, rest))
        } else {
            Err(403u16)
        },
    }
}

impl UnipkgProtocol {
    /// See [`spec_resolve`].
    pub fn resolve(&self, host: &str, path: &str) -> (r: Result<(String, String), (u16, String)>)
        ensures
            match r {
                Ok((dir, file)) => spec_resolve(self.assets(), host@, path@) == Ok::<(Seq<char>, Seq<char>), u16>((dir@, file@)),
                Err((status, _)) => spec_resolve(self.assets(), host@, path@) == Err::<(Seq<char>, Seq<char>), u16>(status),
            },
    {
        let (name, rest) = request_target(host, path);
        let asset = match self.get(name.as_str()) {
            Some(a) => a,
            None => {
                let msg = crate::text::msg_join3("未找到插件：", name.as_str(),
                    crate::text::msg_join("\n\nPlugin not found: ", name.as_str()).as_str());
                return Err((404, msg));
            },
        };
        if rest.as_str().is_empty() {
            return Ok((asset.package_dir.clone(), asset.entry.clone()));
        }
        if safe_relative_path(rest.as_str()) {
            Ok((asset.package_dir.clone(), rest))
        } else {
            Err((403, String::from_str("路径越界，拒绝访问。\n\nPath traversal rejected.")))
        }
    }
}

/// ASCII lower case of a character.
pub open spec fn ascii_lower(c: char) -> char {
    if 'A' <= c && c <= 'Z' { ((c as u32) + 32) as char } else { c }
}

/// `a` and `b` are equal ignoring ASCII case.
pub open spec fn eq_ignore_case(a: Seq<char>, b: Seq<char>) -> bool {
    a.len() == b.len() && forall|i: int| 0 <= i < a.len() ==> #[trigger] ascii_lower(a[i]) == ascii_lower(b[i])
}

fn lower_exec(c: char) -> (r: char)
    ensures
        r == ascii_lower(c),
{
    if 'A' <= c && c <= 'Z' {
        let u = ((c as u32) + 32) as u8;
        u as char
    } else {
        c
    }
}

/// Whether `a` and `b` are equal ignoring ASCII case.
pub fn eq_ignore_ascii_case(a: &str, b: &str) -> (r: bool)
    ensures
        r == eq_ignore_case(a@, b@),
{
    let x = chars_of(a);
    let y = chars_of(b);
    if x.len() != y.len() {
        return false;
    }
    let mut i: usize = 0;
    while i < x.len()
        invariant
            i <= x@.len(),
            x@.len() == y@.len(),
            x@ == a@,
            y@ == b@,
            forall|k: int| 0 <= k < i ==> #[trigger] ascii_lower(x@[k]) == ascii_lower(y@[k]),
        decreases x@.len() - i,
    {
        if lower_exec(x[i]) != lower_exec(y[i]) {
            return false;
        }
        i = i + 1;
    }
    true
}

/// The content type of a file by its extension (ASCII case ignored).
pub open spec fn spec_content_type(ext: Option<Seq<char>>) -> Seq<char> {
    match ext {
        Some(e) => if eq_ignore_case(e, "html"@) {
            "text/html; charset=utf-8"@
        } else if eq_ignore_case(e, "js"@) || eq_ignore_case(e, "mjs"@) {
            "text/javascript; charset=utf-8"@
        } else if eq_ignore_case(e, "css"@) {
            "text/css; charset=utf-8"@
        } else if eq_ignore_case(e, "json"@) {
            "application/json; charset=utf-8"@
        } else if eq_ignore_case(e, "svg"@) {
            "image/svg+xml"@
        } else if eq_ignore_case(e, "png"@) {
            "image/png"@
        } else if eq_ignore_case(e, "ico"@) {
            "image/x-icon"@
        } else if eq_ignore_case(e, "woff2"@) {
            "font/woff2"@
        } else if eq_ignore_case(e, "woff"@) {
            "font/woff"@
        } else if eq_ignore_case(e, "ttf"@) {
            "font/ttf"@
        } else if eq_ignore_case(e, "map"@) {
            "application/json"@
        } else {
            "application/octet-stream"@
        },
        None => "application/octet-stream"@,
    }
}

/// See [`spec_content_type`].
pub fn content_type(ext: Option<&str>) -> (r: &'static str)
    ensures
        r@ == spec_content_type(match ext { Some(e) => Some(e@), None => None }),
{
    let e = match ext {
        Some(e) => e,
        None => {
            return "application/octet-stream";
        },
    };
    if eq_ignore_ascii_case(e, "html") {
        "text/html; charset=utf-8"
    } else if eq_ignore_ascii_case(e, "js") || eq_ignore_ascii_case(e, "mjs") {
        "text/javascript; charset=utf-8"
    } else if eq_ignore_ascii_case(e, "css") {
        "text/css; charset=utf-8"
    } else if eq_ignore_ascii_case(e, "json") {
        "application/json; charset=utf-8"
    } else if eq_ignore_ascii_case(e, "svg") {
        "image/svg+xml"
    } else if eq_ignore_ascii_case(e, "png") {
        "image/png"
    } else if eq_ignore_ascii_case(e, "ico") {
        "image/x-icon"
    } else if eq_ignore_ascii_case(e, "woff2") {
        "font/woff2"
    } else if eq_ignore_ascii_case(e, "woff") {
        "font/woff"
    } else if eq_ignore_ascii_case(e, "ttf") {
        "font/ttf"
    } else if eq_ignore_ascii_case(e, "map") {
        "application/json"
    } else {
        "application/octet-stream"
    }
}

/// The HTML escape of one character (`&`, `<`, `>`).
pub open spec fn escape_char(c: char) -> Seq<char> {
    if c == '&' {
        "&amp;"@
    } else if c == '<' {
        "&lt;"@
    } else if c == '>' {
        "&gt;"@
    } else {
        seq![c]
    }
}

/// `s` with `&`, `<` and `>` escaped.
pub open spec fn spec_html_escape(s: Seq<char>) -> Seq<char>
    decreases s.len(),
{
    if s.len() == 0 { Seq::empty() } else { spec_html_escape(s.drop_last()) + escape_char(s.last()) }
}

/// See [`spec_html_escape`].
pub fn html_escape(text: &str) -> (r: String)
    ensures
        r@ == spec_html_escape(text@),
{
    let cs = chars_of(text);
    let mut out = String::from_str("");
    let mut i: usize = 0;
    proof {
        reveal_strlit("");
    }
    assert(cs@.take(0) =~= Seq::<char>::empty());
    while i < cs.len()
        invariant
            i <= cs@.len(),
            cs@ == text@,
            out@ == spec_html_escape(cs@.take(i as int)),
        decreases cs@.len() - i,
    {
        assert(cs@.take(i + 1).drop_last() =~= cs@.take(i as int));
        assert(cs@.take(i + 1).last() == cs@[i as int]);
        let c = cs[i];
        if c == '&' {
            out.append("&amp;");
        } else if c == '<' {
            out.append("&lt;");
        } else if c == '>' {
            out.append("&gt;");
        } else {
            let one = [c];
            out.append(string_from_chars(&one).as_str());
            assert(one@ =~= seq![c]);
        }
        i = i + 1;
    }
    assert(cs@.take(cs@.len() as int) =~= cs@);
    out
}

/// The HTML error page of a status and message.
pub fn error_page(status: u16, message: &str) -> (r: String)
    ensures
        r@ == "<!doctype html><html><head><meta charset=\"utf-8\"><title>unipkg "@
            + crate::devcore::decimal(status as nat)
            + "</title></head><body style=\"background:#0d0f12;color:#e8edf5;font-family:monospace;padding:24px\"><pre>"@
            + spec_html_escape(message@) + "</pre></body></html>"@,
{
    let mut s = String::from_str("<!doctype html><html><head><meta charset=\"utf-8\"><title>unipkg ");
    s.append(crate::devcore::decimal_string(status as u64).as_str());
    s.append("</title></head><body style=\"background:#0d0f12;color:#e8edf5;font-family:monospace;padding:24px\"><pre>");
    s.append(html_escape(message).as_str());
    s.append("</pre></body></html>");
    s
}

} // verus!
