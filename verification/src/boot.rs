//! Boot decisions made before any UI exists: the log level, and the report
//! written when the required plugin set is incomplete.
use vstd::prelude::*;
use crate::order::texts;
use crate::plugin::BootCheck;
use crate::upt_log::Level;

verus! {

/// The log level at boot: everything with the debug console on, from
/// `Info` up otherwise.
pub fn boot_log_level(debug_console: bool) -> (r: Level)
    ensures
        r == (if debug_console { Level::Debug } else { Level::Info }),
{
    if debug_console { Level::Debug } else { Level::Info }
}

/// Whether the boot check failed (something missing or invalid).
pub open spec fn boot_failed(b: BootCheck) -> bool {
    b.missing@.len() > 0 || b.invalid@.len() > 0
}

/// Whether the boot check failed.
pub fn boot_check_failed(b: &BootCheck) -> (r: bool)
    ensures
        r == boot_failed(*b),
{
    b.missing.len() > 0 || b.invalid.len() > 0
}

/// One `  - name` line per name.
pub open spec fn bullets(names: Seq<Seq<char>>) -> Seq<char>
    decreases names.len(),
{
    if names.len() == 0 {
        Seq::empty()
    } else {
        bullets(names.drop_last()) + "  - "@ + names.last() + "\n"@
    }
}

/// A titled section of names (nothing when there are none).
pub open spec fn section(title: Seq<char>, names: Seq<Seq<char>>) -> Seq<char> {
    if names.len() == 0 { Seq::empty() } else { title + bullets(names) + "\n"@ }
}

/// The text of the boot error report.
pub open spec fn spec_boot_report(b: BootCheck) -> Seq<char> {
    "UniProgrammer 启动失败：必需插件缺失或无效\n\n"@
        + section("缺少的必需插件:\n"@, texts(b.missing@))
        + section("无效的必需插件:\n"@, texts(b.invalid@))
        + "请恢复 plugins/builtin 目录下的内置插件清单后重试。\n"@
}

fn append_section(out: &mut String, title: &str, names: &Vec<String>)
    ensures
        final(out)@ == old(out)@ + section(title@, texts(names@)),
{
    if names.len() == 0 {
        assert(section(title@, texts(names@)) =~= Seq::<char>::empty());
        assert(final(out)@ =~= old(out)@ + Seq::<char>::empty());
        return;
    }
    let ghost start = out@;
    out.append(title);
    let mut i: usize = 0;
    assert(texts(names@).take(0) =~= Seq::<Seq<char>>::empty());
    while i < names.len()
        invariant
            i <= names@.len(),
            out@ == start + title@ + bullets(texts(names@).take(i as int)),
        decreases names@.len() - i,
    {
        assert(texts(names@).take(i + 1).drop_last() =~= texts(names@).take(i as int));
        assert(texts(names@).take(i + 1).last() == names@[i as int]@);
        out.append("  - ");
        out.append(names[i].as_str());
        out.append("\n");
        i = i + 1;
    }
    assert(texts(names@).take(names@.len() as int) =~= texts(names@));
    out.append("\n");
}

/// The report written next to the executable when the required plugin set
/// is missing or invalid.
pub fn boot_error_report(b: &BootCheck) -> (r: String)
    ensures
        r@ == spec_boot_report(*b),
{
    let mut out = String::from_str("UniProgrammer 启动失败：必需插件缺失或无效\n\n");
    append_section(&mut out, "缺少的必需插件:\n", &b.missing);
    append_section(&mut out, "无效的必需插件:\n", &b.invalid);
    out.append("请恢复 plugins/builtin 目录下的内置插件清单后重试。\n");
    out
}

} // verus!
