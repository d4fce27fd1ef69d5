//! Script plugins: what a run reports (log lines and protocol
//! registrations) and which manifests may run as a script at all.
use vstd::prelude::*;
use crate::plugin::{PluginKind, PluginManifest};
use crate::text::{chars_of, msg_join3};

verus! {

/// One log line of a script plugin.
#[derive(Debug, Clone, PartialEq, Eq)]
pub struct ScriptLogEntry {
    pub level: String,
    pub message: String,
}

/// A protocol registration of a script plugin (`uni.register`).
#[derive(Debug, Clone, PartialEq, Eq)]
pub struct ScriptRegistration {
    pub id: String,
    pub kind: String,
    pub description: Option<String>,
}

/// What one script run produced.
#[derive(Debug, Clone, PartialEq, Eq)]
pub struct ScriptRunResult {
    pub logs: Vec<ScriptLogEntry>,
    pub registrations: Vec<ScriptRegistration>,
}

impl Default for ScriptRunResult {
    fn default() -> (r: ScriptRunResult)
        ensures
            r.logs@.len() == 0 && r.registrations@.len() == 0,
    {
        ScriptRunResult { logs: Vec::new(), registrations: Vec::new() }
    }
}

/// `s` ends with `suffix`.
pub open spec fn ends_with(s: Seq<char>, suffix: Seq<char>) -> bool {
    suffix.len() <= s.len() && s.subrange(s.len() - suffix.len(), s.len() as int) == suffix
}

fn ends_with_exec(s: &str, suffix: &str) -> (r: bool)
    ensures
        r == ends_with(s@, suffix@),
{
    let a = chars_of(s);
    let b = chars_of(suffix);
    if b.len() > a.len() {
        return false;
    }
    let n = a.len();
    let off = n - b.len();
    let mut i: usize = 0;
    while i < b.len()
        invariant
            i <= b@.len(),
            off + b@.len() == a@.len(),
            n == a@.len(),
            a@ == s@,
            b@ == suffix@,
            forall|k: int| 0 <= k < i ==> a@[off + k] == b@[k],
        decreases b@.len() - i,
    {
        if a[off + i] != b[i] {
            assert(a@.subrange(off as int, a@.len() as int)[i as int] != b@[i as int]);
            return false;
        }
        i = i + 1;
    }
    assert(a@.subrange(off as int, a@.len() as int) =~= b@);
    true
}

/// A manifest that may run as a script plugin: a protocol plugin whose
/// entry is a `.js` file.
pub open spec fn script_runnable(m: PluginManifest) -> bool {
    m.kind == PluginKind::Protocol && ends_with(m.entry@, ".js"@)
}

/// Check a manifest before its script runs.
pub fn check_script_plugin(manifest: &PluginManifest) -> (r: Result<(), String>)
    ensures
        r is Ok <==> script_runnable(*manifest),
{
    match manifest.kind {
        PluginKind::Protocol => {},
        _ => {
            return Err(msg_join3("script plugins require kind = \"protocol\", got '", manifest.kind.as_str(), "'"));
        },
    }
    if !ends_with_exec(manifest.entry.as_str(), ".js") {
        return Err(msg_join3("script plugin entry '", manifest.entry.as_str(), "' must end with \".js\""));
    }
    Ok(())
}

} // verus!
