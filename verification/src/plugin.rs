//! The plugin system: plugin kinds and layers, the capability whitelist and
//! its intersection with what an adapter really offers, and the registry of
//! modules compiled into the program (`uni-base`).
use vstd::prelude::*;
use crate::text::str_eq;

verus! {

/// Interface version implemented by this plugin manager.
pub const PLUGIN_API_VERSION: u32 = 1;

/// Version of the built-in `uni-base` virtual dependency.
pub const UNI_BASE_API_VERSION: &'static str = "1.0.0";

/// The plugins that must be present at boot (compile-time builtins
/// represented by shipped manifests).
pub open spec fn spec_required_names() -> Seq<Seq<char>> {
    seq!["uni.tauri"@, "uni.hal"@, "uni.chipdb"@, "uni.tauri.hexview"@, "uni.proto"@]
}

/// The required plugin names, in order.
pub fn required_plugin_names() -> (r: Vec<&'static str>)
    ensures
        r@.len() == 5,
        forall|i: int| 0 <= i < 5 ==> #[trigger] r@[i]@ == spec_required_names()[i],
{
    let mut v: Vec<&'static str> = Vec::new();
    v.push("uni.tauri");
    v.push("uni.hal");
    v.push("uni.chipdb");
    v.push("uni.tauri.hexview");
    v.push("uni.proto");
    v
}

/// Whether `name` is one of the required plugins.
pub fn is_required_plugin(name: &str) -> (r: bool)
    ensures
        r == spec_required_names().contains(name@),
{
    let names = required_plugin_names();
    let mut i: usize = 0;
    while i < names.len()
        invariant
            i <= names@.len(),
            names@.len() == 5,
            forall|k: int| 0 <= k < 5 ==> #[trigger] names@[k]@ == spec_required_names()[k],
            forall|k: int| 0 <= k < i ==> spec_required_names()[k] != name@,
        decreases names@.len() - i,
    {
        if str_eq(names[i], name) {
            assert(spec_required_names()[i as int] == name@);
            return true;
        }
        i = i + 1;
    }
    assert(!spec_required_names().contains(name@)) by {
        if spec_required_names().contains(name@) {
            let k = choose|k: int| 0 <= k < 5 && spec_required_names()[k] == name@;
            assert(spec_required_names()[k] != name@);
        }
    }
    false
}

/// Result of the boot-time required-plugin check.
pub struct BootCheck {
    /// Required plugin names that were not loaded at all.
    pub missing: Vec<String>,
    /// Required plugin names whose manifest was loaded but recorded as
    /// invalid (parse error or duplicate name).
    pub invalid: Vec<String>,
}

/// Plugin category.
#[derive(Clone, Copy, PartialEq, Eq, Debug, Structural)]
pub enum PluginKind {
    Adapter,
    Protocol,
    ChipDb,
    Ui,
}

/// The manifest name of a plugin kind.
pub open spec fn spec_kind_name(k: PluginKind) -> Seq<char> {
    match k {
        PluginKind::Adapter => "adapter"@,
        PluginKind::Protocol => "protocol"@,
        PluginKind::ChipDb => "chipdb"@,
        PluginKind::Ui => "ui"@,
    }
}

/// The plugin kind a manifest name denotes.
pub open spec fn spec_kind_of(s: Seq<char>) -> Option<PluginKind> {
    if s == "adapter"@ { Some(PluginKind::Adapter) }
    else if s == "protocol"@ { Some(PluginKind::Protocol) }
    else if s == "chipdb"@ { Some(PluginKind::ChipDb) }
    else if s == "ui"@ { Some(PluginKind::Ui) }
    else { None }
}

/// A kind's text parses back to the kind.
pub proof fn lemma_kind_text_round_trip(k: PluginKind)
    ensures
        spec_kind_of(spec_kind_name(k)) == Some(k),
{
    reveal_strlit("adapter");
    reveal_strlit("protocol");
    reveal_strlit("chipdb");
    reveal_strlit("ui");
    assert("adapter"@.len() == 7 && "protocol"@.len() == 8 && "chipdb"@.len() == 6 && "ui"@.len() == 2);
    match k {
        PluginKind::Adapter => {},
        PluginKind::Protocol => {
            assert("protocol"@ != "adapter"@);
        },
        PluginKind::ChipDb => {
            assert("chipdb"@ != "adapter"@ && "chipdb"@ != "protocol"@);
        },
        PluginKind::Ui => {
            assert("ui"@ != "adapter"@ && "ui"@ != "protocol"@ && "ui"@ != "chipdb"@);
        },
    }
}

impl PluginKind {
    /// The manifest name of the kind.
    pub fn as_str(self) -> (r: &'static str)
        ensures
            r@ == spec_kind_name(self),
    {
        match self {
            PluginKind::Adapter => "adapter",
            PluginKind::Protocol => "protocol",
            PluginKind::ChipDb => "chipdb",
            PluginKind::Ui => "ui",
        }
    }

    /// Parse a manifest kind name.
    pub fn parse(s: &str) -> (r: Result<PluginKind, String>)
        ensures
            match r {
                Ok(k) => spec_kind_of(s@) == Some(k),
                Err(_) => spec_kind_of(s@) is None,
            },
    {
        if str_eq(s, "adapter") {
            Ok(PluginKind::Adapter)
        } else if str_eq(s, "protocol") {
            Ok(PluginKind::Protocol)
        } else if str_eq(s, "chipdb") {
            Ok(PluginKind::ChipDb)
        } else if str_eq(s, "ui") {
            Ok(PluginKind::Ui)
        } else {
            Err(crate::text::msg_join3("unknown plugin kind '", s, "' (expected adapter, protocol, chipdb or ui)"))
        }
    }
}

impl core::str::FromStr for PluginKind {
    type Err = String;

    fn from_str(s: &str) -> Result<Self, Self::Err> {
        PluginKind::parse(s)
    }
}

/// Plugin layer semantics.
#[derive(Clone, Copy, PartialEq, Eq, Debug, Structural)]
pub enum PluginLayer {
    /// Core plugin required by the application; always enabled.
    Required,
    /// Optional plugin loaded on a cold start path.
    Cold,
    /// Optional plugin loaded on a hot/live path.
    Hot,
}

/// The manifest name of a layer.
pub open spec fn spec_layer_name(l: PluginLayer) -> Seq<char> {
    match l {
        PluginLayer::Required => "required"@,
        PluginLayer::Cold => "cold"@,
        PluginLayer::Hot => "hot"@,
    }
}

/// The layer a manifest name denotes.
pub open spec fn spec_layer_of(s: Seq<char>) -> Option<PluginLayer> {
    if s == "required"@ { Some(PluginLayer::Required) }
    else if s == "cold"@ { Some(PluginLayer::Cold) }
    else if s == "hot"@ { Some(PluginLayer::Hot) }
    else { None }
}

/// The layer of a kind whose manifest names none: UI and chip-database
/// plugins are required, adapters cold, protocols hot.
pub open spec fn spec_default_layer(k: PluginKind) -> PluginLayer {
    match k {
        PluginKind::Ui | PluginKind::ChipDb => PluginLayer::Required,
        PluginKind::Adapter => PluginLayer::Cold,
        PluginKind::Protocol => PluginLayer::Hot,
    }
}

impl PluginLayer {
    /// The manifest name of the layer.
    pub fn as_str(self) -> (r: &'static str)
        ensures
            r@ == spec_layer_name(self),
    {
        match self {
            PluginLayer::Required => "required",
            PluginLayer::Cold => "cold",
            PluginLayer::Hot => "hot",
        }
    }

    /// Parse a manifest layer name.
    pub fn parse(s: &str) -> (r: Result<PluginLayer, String>)
        ensures
            match r {
                Ok(l) => spec_layer_of(s@) == Some(l),
                Err(_) => spec_layer_of(s@) is None,
            },
    {
        if str_eq(s, "required") {
            Ok(PluginLayer::Required)
        } else if str_eq(s, "cold") {
            Ok(PluginLayer::Cold)
        } else if str_eq(s, "hot") {
            Ok(PluginLayer::Hot)
        } else {
            Err(crate::text::msg_join3("unknown plugin layer '", s, "' (expected required, cold or hot)"))
        }
    }

    /// The layer of a kind whose manifest names none.
    pub fn default_for(kind: PluginKind) -> (r: PluginLayer)
        ensures
            r == spec_default_layer(kind),
    {
        match kind {
            PluginKind::Ui | PluginKind::ChipDb => PluginLayer::Required,
            PluginKind::Adapter => PluginLayer::Cold,
            PluginKind::Protocol => PluginLayer::Hot,
        }
    }
}

impl Default for PluginLayer {
    fn default() -> (r: PluginLayer)
        ensures
            r == PluginLayer::Cold,
    {
        PluginLayer::Cold
    }
}

impl core::str::FromStr for PluginLayer {
    type Err = String;

    fn from_str(s: &str) -> Result<Self, Self::Err> {
        PluginLayer::parse(s)
    }
}

/// A named dependency with a semver requirement.
pub struct Dependency {
    pub name: String,
    pub requirement: String,
}

/// Manifest permissions; everything denied by default.
pub struct PluginPermissions {
    pub serial: bool,
    pub usb: bool,
    pub network: bool,
    pub files: Vec<String>,
}

impl Default for PluginPermissions {
    fn default() -> (r: PluginPermissions)
        ensures
            !r.serial && !r.usb && !r.network && r.files@.len() == 0,
    {
        PluginPermissions { serial: false, usb: false, network: false, files: Vec::new() }
    }
}

/// Declared SPI capability.
pub struct SpiCapability {
    /// `(cs, sck, mosi, miso)` pin names.
    pub pins: Option<(String, String, String, String)>,
    pub max_frame: usize,
    pub max_freq_khz: u32,
}

/// Declared UART capability.
pub struct UartCapability {
    pub endpoint: Option<String>,
}

/// Declared VCC/IO power control capability.
pub struct PowerCapability {
    /// Supported output voltage range in millivolts, inclusive.
    pub range_mv: Option<(u32, u32)>,
}

/// Capability whitelist; the default denies everything.
pub struct CapabilitySet {
    pub spi: Option<SpiCapability>,
    pub uart: Option<UartCapability>,
    pub i2c: bool,
    pub gpio: bool,
    pub vcc_control: Option<PowerCapability>,
    pub wp_control: bool,
}

/// The capability set that grants nothing.
pub open spec fn denies_all(c: CapabilitySet) -> bool {
    c.spi is None && c.uart is None && !c.i2c && !c.gpio && c.vcc_control is None && !c.wp_control
}

impl Default for CapabilitySet {
    fn default() -> (r: CapabilitySet)
        ensures
            denies_all(r),
    {
        CapabilitySet { spi: None, uart: None, i2c: false, gpio: false, vcc_control: None, wp_control: false }
    }
}

/// The stricter (smaller) of two positive limits; a zero side means "not
/// reported" and the other side is kept.
pub open spec fn spec_intersect_limit(eff: int, decl: int) -> int {
    if eff == 0 { decl } else if decl == 0 { eff } else if eff < decl { eff } else { decl }
}

fn intersect_limit(eff: usize, decl: usize) -> (r: usize)
    ensures
        r == spec_intersect_limit(eff as int, decl as int),
{
    if eff == 0 {
        decl
    } else if decl == 0 {
        eff
    } else if eff < decl {
        eff
    } else {
        decl
    }
}

fn intersect_limit_u32(eff: u32, decl: u32) -> (r: u32)
    ensures
        r == spec_intersect_limit(eff as int, decl as int),
{
    if eff == 0 {
        decl
    } else if decl == 0 {
        eff
    } else if eff < decl {
        eff
    } else {
        decl
    }
}

/// Both sides declare SPI and neither names its pins.
pub open spec fn spi_pins_missing(eff: CapabilitySet, decl: CapabilitySet) -> bool {
    eff.spi matches Some(e) && decl.spi matches Some(d) && e.pins is None && d.pins is None
}

/// Both sides declare VCC control, and a range is missing or the ranges do
/// not overlap.
pub open spec fn vcc_unsatisfiable(eff: CapabilitySet, decl: CapabilitySet) -> bool {
    match (eff.vcc_control, decl.vcc_control) {
        (Some(e), Some(d)) => match (e.range_mv, d.range_mv) {
            (Some((el, eh)), Some((dl, dh))) => (if el < dl { dl } else { el }) > (if eh < dh { eh } else { dh }),
            _ => true,
        },
        _ => false,
    }
}

/// Why a capability set cannot be exposed: SPI without pins is named
/// first, then the VCC ranges (missing, or the two that do not overlap).
pub open spec fn expose_error_text(eff: CapabilitySet, decl: CapabilitySet) -> Seq<char> {
    if spi_pins_missing(eff, decl) {
        "SPI capability: no pins available on either side"@
    } else {
        match (eff.vcc_control, decl.vcc_control) {
            (Some(e), Some(d)) => match (e.range_mv, d.range_mv) {
                (Some((el, eh)), Some((dl, dh))) => "VCC control range intersection is empty: effective "@
                    + crate::devcore::decimal(el as nat) + "-"@ + crate::devcore::decimal(eh as nat)
                    + " mV vs declared "@ + crate::devcore::decimal(dl as nat) + "-"@ + crate::devcore::decimal(dh as nat) + " mV"@,
                _ => "VCC control: both effective and declared ranges are required"@,
            },
            _ => Seq::empty(),
        }
    }
}

/// The exposed SPI capability: present when both sides declare it, with the
/// effective pins (else the declared ones) and the stricter limits.
pub open spec fn exposed_spi(eff: Option<SpiCapability>, decl: Option<SpiCapability>) -> Option<SpiCapability> {
    match (eff, decl) {
        (Some(e), Some(d)) => Some(SpiCapability {
            pins: if e.pins is Some { e.pins } else { d.pins },
            max_frame: spec_intersect_limit(e.max_frame as int, d.max_frame as int) as usize,
            max_freq_khz: spec_intersect_limit(e.max_freq_khz as int, d.max_freq_khz as int) as u32,
        }),
        _ => None,
    }
}

/// The exposed UART capability: the effective endpoint, else the declared.
pub open spec fn exposed_uart(eff: Option<UartCapability>, decl: Option<UartCapability>) -> Option<UartCapability> {
    match (eff, decl) {
        (Some(e), Some(d)) => Some(UartCapability { endpoint: if e.endpoint is Some { e.endpoint } else { d.endpoint } }),
        _ => None,
    }
}

/// The exposed power control: the overlap of both ranges.
pub open spec fn exposed_vcc(eff: Option<PowerCapability>, decl: Option<PowerCapability>) -> Option<PowerCapability> {
    match (eff, decl) {
        (Some(e), Some(d)) => match (e.range_mv, d.range_mv) {
            (Some((el, eh)), Some((dl, dh))) => Some(PowerCapability {
                range_mv: Some((if el < dl { dl } else { el }, if eh < dh { eh } else { dh })),
            }),
            _ => None,
        },
        _ => None,
    }
}

fn clone_pins(p: &Option<(String, String, String, String)>) -> (r: Option<(String, String, String, String)>)
    ensures
        r == *p,
{
    match p {
        Some(t) => Some((t.0.clone(), t.1.clone(), t.2.clone(), t.3.clone())),
        None => None,
    }
}

fn clone_endpoint(p: &Option<String>) -> (r: Option<String>)
    ensures
        r == *p,
{
    match p {
        Some(t) => Some(t.clone()),
        None => None,
    }
}

impl CapabilitySet {
    /// Intersect the runtime-effective capabilities (`self`) with the
    /// manifest's declared whitelist: a capability is exposed only when both
    /// sides have it, with the stricter limits and the overlap of the
    /// voltage ranges. Refused when both sides declare SPI without any
    /// pins, or VCC control without both ranges or with ranges that do not
    /// overlap.
    pub fn expose(self, declared: &CapabilitySet) -> (r: Result<CapabilitySet, String>)
        ensures
            r is Err <==> spi_pins_missing(self, *declared) || vcc_unsatisfiable(self, *declared),
            r matches Err(e) ==> e@ == expose_error_text(self, *declared),
            r matches Ok(c) ==> {
                &&& c.spi == exposed_spi(self.spi, declared.spi)
                &&& c.uart == exposed_uart(self.uart, declared.uart)
                &&& c.vcc_control == exposed_vcc(self.vcc_control, declared.vcc_control)
                &&& c.i2c == (self.i2c && declared.i2c)
                &&& c.gpio == (self.gpio && declared.gpio)
                &&& c.wp_control == (self.wp_control && declared.wp_control)
            },
    {
        let spi = match (&self.spi, &declared.spi) {
            (Some(e), Some(d)) => {
                let pins = if e.pins.is_some() {
                    clone_pins(&e.pins)
                } else if d.pins.is_some() {
                    clone_pins(&d.pins)
                } else {
                    return Err("SPI capability: no pins available on either side".to_string());
                };
                Some(SpiCapability {
                    pins,
                    max_frame: intersect_limit(e.max_frame, d.max_frame),
                    max_freq_khz: intersect_limit_u32(e.max_freq_khz, d.max_freq_khz),
                })
            },
            _ => None,
        };
        let uart = match (&self.uart, &declared.uart) {
            (Some(e), Some(d)) => Some(UartCapability {
                endpoint: if e.endpoint.is_some() { clone_endpoint(&e.endpoint) } else { clone_endpoint(&d.endpoint) },
            }),
            _ => None,
        };
        let vcc_control = match (&self.vcc_control, &declared.vcc_control) {
            (Some(e), Some(d)) => match (e.range_mv, d.range_mv) {
                (Some((el, eh)), Some((dl, dh))) => {
                    let lo = if el < dl { dl } else { el };
                    let hi = if eh < dh { eh } else { dh };
                    if lo > hi {
                        return Err(crate::text::msg_vcc_empty(el, eh, dl, dh));
                    }
                    Some(PowerCapability { range_mv: Some((lo, hi)) })
                },
                _ => {
                    return Err("VCC control: both effective and declared ranges are required".to_string());
                },
            },
            _ => None,
        };
        Ok(CapabilitySet {
            spi,
            uart,
            i2c: self.i2c && declared.i2c,
            gpio: self.gpio && declared.gpio,
            vcc_control,
            wp_control: self.wp_control && declared.wp_control,
        })
    }
}

/// Intersecting a capability set with one that offers at least as much
/// leaves its booleans and its limits no larger than before: exposing never
/// widens what the declared whitelist grants.
pub proof fn lemma_expose_never_widens(eff: CapabilitySet, decl: CapabilitySet)
    requires
        !spi_pins_missing(eff, decl),
        !vcc_unsatisfiable(eff, decl),
    ensures
        (eff.i2c && decl.i2c) ==> decl.i2c,
        exposed_spi(eff.spi, decl.spi) matches Some(s) ==> decl.spi matches Some(d)
            && (d.max_frame > 0 ==> s.max_frame <= d.max_frame)
            && (d.max_freq_khz > 0 ==> s.max_freq_khz <= d.max_freq_khz),
        exposed_vcc(eff.vcc_control, decl.vcc_control) matches Some(p) ==> decl.vcc_control matches Some(d)
            && (d.range_mv matches Some((dl, dh)) && p.range_mv matches Some((lo, hi)) && dl <= lo && hi <= dh && lo <= hi),
{
}

// ─────────────────────────────── builtins ────────────────────────────────

/// A compiled-in module of the `uni-base` registry.
pub struct BuiltinModule {
    pub name: String,
    pub version: String,
    pub interface_version: u32,
    pub capabilities: CapabilitySet,
    pub description: String,
}

/// The names of the compiled-in modules, in registry order.
pub open spec fn spec_builtin_names() -> Seq<Seq<char>> {
    seq![
        "uni.core"@, "uni.hal"@, "uni.chipdb"@, "uni.tauri"@, "uni.tauri.hexview"@, "uni.proto.spi-nor"@,
        "uni.proto.spi-nand"@, "uni.proto.spi-eeprom"@, "uni.proto.data45"@, "uni.proto.i2c"@,
        "uni.proto.microwire"@, "uni.hal.ch34x"@, "uni.hal.serprog"@,
    ]
}

/// The version of a compiled-in module, by exact name.
pub open spec fn spec_builtin_version(name: Seq<char>) -> Option<Seq<char>> {
    if spec_builtin_names().contains(name) { Some("1.0.0"@) } else { None }
}

fn module(name: &str, capabilities: CapabilitySet, description: &str) -> (m: BuiltinModule)
    ensures
        m.name@ == name@,
        m.version@ == "1.0.0"@,
        m.interface_version == PLUGIN_API_VERSION,
        m.capabilities == capabilities,
        m.description@ == description@,
{
    BuiltinModule {
        name: String::from_str(name),
        version: String::from_str("1.0.0"),
        interface_version: PLUGIN_API_VERSION,
        capabilities,
        description: String::from_str(description),
    }
}

/// The capabilities of the programmer adapters: SPI with 4092-byte frames
/// up to 60 MHz, pins not fixed.
pub open spec fn adapter_capabilities(c: CapabilitySet) -> bool {
    &&& c.spi == Some(SpiCapability { pins: None, max_frame: 4092, max_freq_khz: 60_000 })
    &&& c.uart is None && !c.i2c && !c.gpio && c.vcc_control is None && !c.wp_control
}

fn spi_capability() -> (c: CapabilitySet)
    ensures
        adapter_capabilities(c),
{
    CapabilitySet {
        spi: Some(SpiCapability { pins: None, max_frame: 4092, max_freq_khz: 60_000 }),
        uart: None,
        i2c: false,
        gpio: false,
        vcc_control: None,
        wp_control: false,
    }
}

/// The compiled-in `uni-base` modules: every module has version `1.0.0`
/// and interface version [`PLUGIN_API_VERSION`]; the two programmer
/// adapters offer SPI, the others no capability.
pub fn builtin_modules() -> (r: Vec<BuiltinModule>)
    ensures
        r@.len() == spec_builtin_names().len(),
        forall|i: int| 0 <= i < r@.len() ==> {
            &&& #[trigger] r@[i].name@ == spec_builtin_names()[i]
            &&& r@[i].version@ == "1.0.0"@
            &&& r@[i].interface_version == PLUGIN_API_VERSION
            &&& (i >= 11 ==> adapter_capabilities(r@[i].capabilities))
            &&& (i < 11 ==> denies_all(r@[i].capabilities))
        },
{
    let mut v: Vec<BuiltinModule> = Vec::new();
    v.push(module("uni.core", CapabilitySet::default(), "应用状态、操作流水线与插件管理器核心"));
    v.push(module("uni.hal", CapabilitySet::default(), "硬件抽象层路由与能力协商"));
    v.push(module("uni.chipdb", CapabilitySet::default(), "芯片数据库查询、导入与统计"));
    v.push(module("uni.tauri", CapabilitySet::default(), "Tauri UI 壳（主窗口宿主）"));
    v.push(module("uni.tauri.hexview", CapabilitySet::default(), "Tauri UI 的十六进制视图贡献页"));
    v.push(module("uni.proto.spi-nor", CapabilitySet::default(), "SPI NOR Flash 协议"));
    v.push(module("uni.proto.spi-nand", CapabilitySet::default(), "SPI NAND Flash 协议"));
    v.push(module("uni.proto.spi-eeprom", CapabilitySet::default(), "SPI EEPROM 协议"));
    v.push(module("uni.proto.data45", CapabilitySet::default(), "DataFlash AT45 协议"));
    v.push(module("uni.proto.i2c", CapabilitySet::default(), "I2C 芯片协议"));
    v.push(module("uni.proto.microwire", CapabilitySet::default(), "MicroWire 芯片协议"));
    v.push(module("uni.hal.ch34x", spi_capability(), "CH341A / CH347T / CH347F 编程器适配器"));
    v.push(module("uni.hal.serprog", spi_capability(), "serprog 编程器适配器"));
    v
}

/// The version of a compiled-in module, by exact name.
pub fn builtin_version(name: &str) -> (r: Option<&'static str>)
    ensures
        match r {
            Some(v) => spec_builtin_version(name@) == Some(v@),
            None => spec_builtin_version(name@) is None,
        },
{
    let names = [
        "uni.core", "uni.hal", "uni.chipdb", "uni.tauri", "uni.tauri.hexview", "uni.proto.spi-nor",
        "uni.proto.spi-nand", "uni.proto.spi-eeprom", "uni.proto.data45", "uni.proto.i2c",
        "uni.proto.microwire", "uni.hal.ch34x", "uni.hal.serprog",
    ];
    let mut i: usize = 0;
    while i < 13
        invariant
            i <= 13,
            forall|k: int| 0 <= k < 13 ==> #[trigger] names@[k]@ == spec_builtin_names()[k],
            forall|k: int| 0 <= k < i ==> spec_builtin_names()[k] != name@,
        decreases 13 - i,
    {
        if str_eq(names[i], name) {
            assert(spec_builtin_names()[i as int] == name@);
            return Some("1.0.0");
        }
        i = i + 1;
    }
    assert(!spec_builtin_names().contains(name@)) by {
        if spec_builtin_names().contains(name@) {
            let k = choose|k: int| 0 <= k < 13 && spec_builtin_names()[k] == name@;
            assert(spec_builtin_names()[k] != name@);
        }
    }
    None
}

/// Every compiled-in module reports the version that
/// [`builtin_version`] gives for its name.
pub proof fn lemma_builtin_versions_agree(i: int)
    requires
        0 <= i < spec_builtin_names().len(),
    ensures
        spec_builtin_version(spec_builtin_names()[i]) == Some("1.0.0"@),
{
}

// ─────────────────────────────── manifests ───────────────────────────────

/// Whether `semver` accepts `text` as a version.
pub uninterp spec fn semver_version_ok(text: Seq<char>) -> bool;

/// Whether `semver` accepts `text` as a version requirement.
pub uninterp spec fn semver_req_ok(text: Seq<char>) -> bool;

/// Whether version `version` satisfies requirement `req`.
pub uninterp spec fn semver_matches(req: Seq<char>, version: Seq<char>) -> bool;

/// `semver::Version::parse`: whether `text` is a semantic version (the
/// error is the parser's message).
#[verifier::external_body]
fn check_version(text: &str) -> (r: Result<(), String>)
    ensures
        r is Ok <==> semver_version_ok(text@),
{
    match semver::Version::parse(text) {
        Ok(_) => Ok(()),
        Err(e) => Err(e.to_string()),
    }
}

/// `semver::VersionReq::matches` of the requirement `requirement` and the
/// version `version`, both parsed first (`VersionReq::parse`,
/// `Version::parse`); an unparsable one is an error with the parser's
/// message.
#[verifier::external_body]
fn requirement_matches(requirement: &str, version: &str) -> (r: Result<bool, String>)
    ensures
        match r {
            Ok(b) => semver_req_ok(requirement@) && semver_version_ok(version@) && b == semver_matches(requirement@, version@),
            Err(_) => !(semver_req_ok(requirement@) && semver_version_ok(version@)),
        },
{
    let req = match semver::VersionReq::parse(requirement) {
        Ok(q) => q,
        Err(e) => return Err(e.to_string()),
    };
    match semver::Version::parse(version) {
        Ok(v) => Ok(req.matches(&v)),
        Err(e) => Err(e.to_string()),
    }
}

/// Parsed plugin manifest (`unipkg.toml` or `manifest.toml`).
pub struct PluginManifest {
    pub name: String,
    /// A semantic version (checked when parsing).
    pub version: String,
    pub plugin_api: u32,
    pub kind: PluginKind,
    pub layer: PluginLayer,
    pub entry: String,
    pub dependencies: Vec<Dependency>,
    pub permissions: PluginPermissions,
    pub capabilities: CapabilitySet,
    pub os: Vec<String>,
    pub arch: Vec<String>,
    pub app: Option<String>,
    pub provider: Option<String>,
}

use crate::toml_model::{
    TomlValue, lookup_value, str_field, int_field, bool_field, strs_field, get, string_field, integer_field,
    boolean_field, string_array_field, parse_toml, toml_document,
};

/// The dependencies of a manifest: `[dependencies]` maps names to
/// requirement strings (absent means none).
pub open spec fn deps_spec(root: Seq<(String, TomlValue)>) -> Result<Seq<(String, String)>, ()> {
    match lookup_value(root, "dependencies"@) {
        None => Ok(Seq::empty()),
        Some(TomlValue::Table(t)) => if forall|i: int| 0 <= i < t@.len() ==> t@[i].1 is Str {
            Ok(Seq::new(t@.len(), |i: int| (t@[i].0, t@[i].1->Str_0)))
        } else {
            Err(())
        },
        Some(_) => Err(()),
    }
}

/// An optional boolean with a default.
pub open spec fn bool_or(r: Result<Option<bool>, ()>, d: bool) -> Result<bool, ()> {
    match r {
        Ok(Some(b)) => Ok(b),
        Ok(None) => Ok(d),
        Err(_) => Err(()),
    }
}

/// The permissions of a manifest: `[permissions]` with `serial`, `usb`,
/// `network` (default false) and `files`; absent means all denied.
pub open spec fn perms_ok(root: Seq<(String, TomlValue)>, p: PluginPermissions) -> bool {
    match lookup_value(root, "permissions"@) {
        None => !p.serial && !p.usb && !p.network && p.files@.len() == 0,
        Some(TomlValue::Table(t)) => {
            &&& bool_or(bool_field(t@, "serial"@), false) == Ok::<bool, ()>(p.serial)
            &&& bool_or(bool_field(t@, "usb"@), false) == Ok::<bool, ()>(p.usb)
            &&& bool_or(bool_field(t@, "network"@), false) == Ok::<bool, ()>(p.network)
            &&& strs_field(t@, "files"@) == Ok::<Seq<String>, ()>(p.files@)
        },
        Some(_) => false,
    }
}

/// The permissions section can be read.
pub open spec fn perms_valid(root: Seq<(String, TomlValue)>) -> bool {
    match lookup_value(root, "permissions"@) {
        None => true,
        Some(TomlValue::Table(t)) => bool_or(bool_field(t@, "serial"@), false) is Ok && bool_or(bool_field(t@, "usb"@), false) is Ok
            && bool_or(bool_field(t@, "network"@), false) is Ok && strs_field(t@, "files"@) is Ok,
        Some(_) => false,
    }
}

/// A pin name of `[capabilities.spi.pins]`: required, a string.
pub open spec fn pin_spec(pins: Seq<(String, TomlValue)>, key: Seq<char>) -> Result<String, ()> {
    match lookup_value(pins, key) {
        Some(TomlValue::Str(s)) => Ok(s),
        _ => Err(()),
    }
}

/// `[capabilities.spi]`: disabled with `enabled = false`; otherwise pins,
/// `max_frame` (a positive machine-size integer) and `max_freq_khz` (a
/// positive 32-bit integer) are required.
pub open spec fn spi_spec(t: Seq<(String, TomlValue)>) -> Result<Option<SpiCapability>, ()> {
    match bool_or(bool_field(t, "enabled"@), true) {
        Err(_) => Err(()),
        Ok(false) => Ok(None),
        Ok(true) => match lookup_value(t, "pins"@) {
            Some(TomlValue::Table(p)) => match (pin_spec(p@, "cs"@), pin_spec(p@, "sck"@), pin_spec(p@, "mosi"@), pin_spec(p@, "miso"@)) {
                (Ok(cs), Ok(sck), Ok(mosi), Ok(miso)) => match (int_field(t, "max_frame"@), int_field(t, "max_freq_khz"@)) {
                    (Ok(Some(f)), Ok(Some(q))) => if 0 < f <= usize::MAX && 0 < q <= u32::MAX {
                        Ok(Some(SpiCapability { pins: Some((cs, sck, mosi, miso)), max_frame: f as usize, max_freq_khz: q as u32 }))
                    } else {
                        Err(())
                    },
                    _ => Err(()),
                },
                _ => Err(()),
            },
            _ => Err(()),
        },
    }
}

/// `[capabilities.uart]`: disabled with `enabled = false`; otherwise the
/// `endpoint` string is required.
pub open spec fn uart_spec(t: Seq<(String, TomlValue)>) -> Result<Option<UartCapability>, ()> {
    match bool_or(bool_field(t, "enabled"@), true) {
        Err(_) => Err(()),
        Ok(false) => Ok(None),
        Ok(true) => match str_field(t, "endpoint"@) {
            Ok(Some(e)) => Ok(Some(UartCapability { endpoint: Some(e) })),
            _ => Err(()),
        },
    }
}

/// `[capabilities.vcc_control]`: enabled only with `enabled = true`, and
/// then `range_mv = [min, max]` with `0 <= min <= max` (32-bit values).
pub open spec fn vcc_spec(t: Seq<(String, TomlValue)>) -> Result<Option<PowerCapability>, ()> {
    match bool_or(bool_field(t, "enabled"@), false) {
        Err(_) => Err(()),
        Ok(false) => Ok(None),
        Ok(true) => match lookup_value(t, "range_mv"@) {
            Some(TomlValue::Array(a)) => if a@.len() == 2 {
                match (a@[0], a@[1]) {
                    (TomlValue::Int(lo), TomlValue::Int(hi)) => if 0 <= lo <= hi <= u32::MAX {
                        Ok(Some(PowerCapability { range_mv: Some((lo as u32, hi as u32)) }))
                    } else {
                        Err(())
                    },
                    _ => Err(()),
                }
            } else {
                Err(())
            },
            _ => Err(()),
        },
    }
}

/// The capability set of the first `n` entries of `[capabilities]`
/// (`spi`, `uart`, `i2c`, `gpio`, `vcc_control`, `wp_control` tables; other
/// keys ignored; `i2c`, `gpio`, `wp_control` granted only with
/// `enabled = true`).
pub open spec fn caps_fold(t: Seq<(String, TomlValue)>, n: int) -> Result<CapabilitySet, ()>
    decreases n,
{
    if n <= 0 {
        Ok(CapabilitySet { spi: None, uart: None, i2c: false, gpio: false, vcc_control: None, wp_control: false })
    } else {
        match caps_fold(t, n - 1) {
            Err(_) => Err(()),
            Ok(c) => {
                let k = t[n - 1].0@;
                let v = t[n - 1].1;
                if k == "spi"@ || k == "uart"@ || k == "i2c"@ || k == "gpio"@ || k == "vcc_control"@ || k == "wp_control"@ {
                    match v {
                        TomlValue::Table(x) => {
                            if k == "spi"@ {
                                match spi_spec(x@) { Ok(s) => Ok(CapabilitySet { spi: s, ..c }), Err(_) => Err(()) }
                            } else if k == "uart"@ {
                                match uart_spec(x@) { Ok(u) => Ok(CapabilitySet { uart: u, ..c }), Err(_) => Err(()) }
                            } else if k == "vcc_control"@ {
                                match vcc_spec(x@) { Ok(p) => Ok(CapabilitySet { vcc_control: p, ..c }), Err(_) => Err(()) }
                            } else {
                                match bool_or(bool_field(x@, "enabled"@), false) {
                                    Err(_) => Err(()),
                                    Ok(b) => if k == "i2c"@ {
                                        Ok(CapabilitySet { i2c: b, ..c })
                                    } else if k == "gpio"@ {
                                        Ok(CapabilitySet { gpio: b, ..c })
                                    } else {
                                        Ok(CapabilitySet { wp_control: b, ..c })
                                    },
                                }
                            }
                        },
                        _ => Err(()),
                    }
                } else {
                    Ok(c)
                }
            },
        }
    }
}

/// The capabilities of a manifest (absent means deny-all).
pub open spec fn caps_spec(root: Seq<(String, TomlValue)>) -> Result<CapabilitySet, ()> {
    match lookup_value(root, "capabilities"@) {
        None => Ok(CapabilitySet { spi: None, uart: None, i2c: false, gpio: false, vcc_control: None, wp_control: false }),
        Some(TomlValue::Table(t)) => caps_fold(t@, t@.len() as int),
        Some(_) => Err(()),
    }
}

/// The `(name, requirement)` pairs of a dependency list.
pub open spec fn dep_pairs(v: Seq<Dependency>) -> Seq<(String, String)> {
    Seq::new(v.len(), |i: int| (v[i].name, v[i].requirement))
}

fn parse_dependencies(root: &Vec<(String, TomlValue)>) -> (r: Result<Vec<Dependency>, String>)
    ensures
        match r {
            Ok(v) => deps_spec(root@) == Ok::<Seq<(String, String)>, ()>(dep_pairs(v@)),
            Err(_) => deps_spec(root@) is Err,
        },
{
    let mut out: Vec<Dependency> = Vec::new();
    match get(root, "dependencies") {
        None => {
            assert(deps_spec(root@) == Ok::<Seq<(String, String)>, ()>(Seq::empty()));
            assert(dep_pairs(out@) =~= Seq::empty());
            Ok(out)
        },
        Some(TomlValue::Table(t)) => {
            let mut i: usize = 0;
            while i < t.len()
                invariant
                    i <= t@.len(),
                    out@.len() == i,
                    lookup_value(root@, "dependencies"@) == Some(TomlValue::Table(*t)),
                    forall|j: int| 0 <= j < i ==> t@[j].1 is Str,
                    forall|j: int| 0 <= j < i ==> #[trigger] out@[j].name == t@[j].0 && out@[j].requirement == t@[j].1->Str_0,
                decreases t@.len() - i,
            {
                match &t[i].1 {
                    TomlValue::Str(req) => {
                        out.push(Dependency { name: t[i].0.clone(), requirement: req.clone() });
                    },
                    _ => {
                        assert(!(t@[i as int].1 is Str));
                        assert(!(forall|j: int| 0 <= j < t@.len() ==> t@[j].1 is Str));
                        return Err(crate::text::msg_join3("dependency '", t[i].0.as_str(), "' must have a string requirement"));
                    },
                }
                i = i + 1;
            }
            assert(forall|j: int| 0 <= j < t@.len() ==> t@[j].1 is Str);
            let ghost d = Seq::new(t@.len(), |j: int| (t@[j].0, t@[j].1->Str_0));
            assert(deps_spec(root@) == Ok::<Seq<(String, String)>, ()>(d));
            assert forall|j: int| 0 <= j < out@.len() implies #[trigger] out@[j].name == d[j].0 && out@[j].requirement == d[j].1 by {
                assert(i == t@.len());
                assert(0 <= j < i);
                assert(out@[j].name == t@[j].0);
                assert(out@[j].requirement == t@[j].1->Str_0);
                assert(d[j] == (t@[j].0, t@[j].1->Str_0));
            }
            assert(dep_pairs(out@) =~= d);
            Ok(out)
        },
        Some(v) => {
            assert(!(*v is Table));
            Err("[dependencies] must be a table".to_string())
        },
    }
}

fn bool_or_exec(r: Result<Option<bool>, String>, d: bool) -> (o: Result<bool, String>)
    ensures
        match r {
            Ok(Some(b)) => o == Ok::<bool, String>(b),
            Ok(None) => o == Ok::<bool, String>(d),
            Err(_) => o is Err,
        },
{
    match r {
        Ok(Some(b)) => Ok(b),
        Ok(None) => Ok(d),
        Err(e) => Err(e),
    }
}

fn parse_permissions(root: &Vec<(String, TomlValue)>) -> (r: Result<PluginPermissions, String>)
    ensures
        match r {
            Ok(p) => perms_valid(root@) && perms_ok(root@, p),
            Err(_) => !perms_valid(root@),
        },
{
    match get(root, "permissions") {
        None => {
            let p = PluginPermissions::default();
            Ok(p)
        },
        Some(TomlValue::Table(t)) => {
            let serial = bool_or_exec(boolean_field(t, "serial"), false)?;
            let usb = bool_or_exec(boolean_field(t, "usb"), false)?;
            let network = bool_or_exec(boolean_field(t, "network"), false)?;
            let files = string_array_field(t, "files")?;
            Ok(PluginPermissions { serial, usb, network, files })
        },
        Some(_) => Err("[permissions] must be a table".to_string()),
    }
}

fn pin_field(pins: &Vec<(String, TomlValue)>, key: &str) -> (r: Result<String, String>)
    ensures
        match r {
            Ok(s) => pin_spec(pins@, key@) == Ok::<String, ()>(s),
            Err(_) => pin_spec(pins@, key@) is Err,
        },
{
    match get(pins, key) {
        Some(TomlValue::Str(s)) => Ok(s.clone()),
        Some(_) => Err(crate::text::msg_join3("capabilities.spi.pins.", key, " must be a string")),
        None => Err(crate::text::msg_join3("capabilities.spi.pins.", key, " is required when enabled")),
    }
}

fn parse_spi(t: &Vec<(String, TomlValue)>) -> (r: Result<Option<SpiCapability>, String>)
    ensures
        match r {
            Ok(c) => spi_spec(t@) == Ok::<Option<SpiCapability>, ()>(c),
            Err(_) => spi_spec(t@) is Err,
        },
{
    let enabled = bool_or_exec(boolean_field(t, "enabled"), true)?;
    if !enabled {
        return Ok(None);
    }
    let pins = match get(t, "pins") {
        Some(TomlValue::Table(p)) => p,
        _ => {
            return Err("capabilities.spi.pins is required when enabled".to_string());
        },
    };
    let cs = pin_field(pins, "cs")?;
    let sck = pin_field(pins, "sck")?;
    let mosi = pin_field(pins, "mosi")?;
    let miso = pin_field(pins, "miso")?;
    let max_frame = match integer_field(t, "max_frame")? {
        Some(f) => f,
        None => {
            return Err("capabilities.spi.max_frame is required when enabled".to_string());
        },
    };
    if max_frame < 0 || max_frame as i128 > usize::MAX as i128 {
        return Err("capabilities.spi.max_frame must be a positive integer".to_string());
    }
    if max_frame == 0 {
        return Err("capabilities.spi.max_frame must be > 0".to_string());
    }
    let max_freq_khz = match integer_field(t, "max_freq_khz")? {
        Some(q) => q,
        None => {
            return Err("capabilities.spi.max_freq_khz is required when enabled".to_string());
        },
    };
    if max_freq_khz < 0 || max_freq_khz > 0xFFFF_FFFF {
        return Err("capabilities.spi.max_freq_khz must be a positive integer".to_string());
    }
    if max_freq_khz == 0 {
        return Err("capabilities.spi.max_freq_khz must be > 0".to_string());
    }
    Ok(Some(SpiCapability { pins: Some((cs, sck, mosi, miso)), max_frame: max_frame as usize, max_freq_khz: max_freq_khz as u32 }))
}

fn parse_uart(t: &Vec<(String, TomlValue)>) -> (r: Result<Option<UartCapability>, String>)
    ensures
        match r {
            Ok(c) => uart_spec(t@) == Ok::<Option<UartCapability>, ()>(c),
            Err(_) => uart_spec(t@) is Err,
        },
{
    let enabled = bool_or_exec(boolean_field(t, "enabled"), true)?;
    if !enabled {
        return Ok(None);
    }
    match string_field(t, "endpoint")? {
        Some(e) => Ok(Some(UartCapability { endpoint: Some(e) })),
        None => Err("capabilities.uart.endpoint is required when enabled".to_string()),
    }
}

fn parse_vcc(t: &Vec<(String, TomlValue)>) -> (r: Result<Option<PowerCapability>, String>)
    ensures
        match r {
            Ok(c) => vcc_spec(t@) == Ok::<Option<PowerCapability>, ()>(c),
            Err(_) => vcc_spec(t@) is Err,
        },
{
    let enabled = bool_or_exec(boolean_field(t, "enabled"), false)?;
    if !enabled {
        return Ok(None);
    }
    let range = match get(t, "range_mv") {
        Some(TomlValue::Array(a)) => a,
        _ => {
            return Err("capabilities.vcc_control.range_mv is required when enabled".to_string());
        },
    };
    if range.len() != 2 {
        return Err("capabilities.vcc_control.range_mv must be [min_mv, max_mv]".to_string());
    }
    let lo = match &range[0] {
        TomlValue::Int(v) => *v,
        _ => {
            return Err("capabilities.vcc_control.range_mv values must be integers".to_string());
        },
    };
    let hi = match &range[1] {
        TomlValue::Int(v) => *v,
        _ => {
            return Err("capabilities.vcc_control.range_mv values must be integers".to_string());
        },
    };
    if lo < 0 || hi < 0 || lo > hi {
        return Err("capabilities.vcc_control.range_mv must be [min, max] with 0 <= min <= max".to_string());
    }
    if lo > 0xFFFF_FFFF || hi > 0xFFFF_FFFF {
        return Err("capabilities.vcc_control range too large".to_string());
    }
    Ok(Some(PowerCapability { range_mv: Some((lo as u32, hi as u32)) }))
}

/// Apply capability table `x` under key `k` to `caps` (see [`caps_fold`]).
fn capability_step(caps: &CapabilitySet, k: &str, x: &Vec<(String, TomlValue)>) -> (r: Result<CapabilitySet, String>)
    requires
        k@ == "spi"@ || k@ == "uart"@ || k@ == "i2c"@ || k@ == "gpio"@ || k@ == "vcc_control"@ || k@ == "wp_control"@,
    ensures
        match r {
            Ok(c) => c == (if k@ == "spi"@ {
                CapabilitySet { spi: spi_spec(x@)->Ok_0, ..*caps }
            } else if k@ == "uart"@ {
                CapabilitySet { uart: uart_spec(x@)->Ok_0, ..*caps }
            } else if k@ == "vcc_control"@ {
                CapabilitySet { vcc_control: vcc_spec(x@)->Ok_0, ..*caps }
            } else if k@ == "i2c"@ {
                CapabilitySet { i2c: bool_or(bool_field(x@, "enabled"@), false)->Ok_0, ..*caps }
            } else if k@ == "gpio"@ {
                CapabilitySet { gpio: bool_or(bool_field(x@, "enabled"@), false)->Ok_0, ..*caps }
            } else {
                CapabilitySet { wp_control: bool_or(bool_field(x@, "enabled"@), false)->Ok_0, ..*caps }
            }) && (if k@ == "spi"@ { spi_spec(x@) is Ok } else if k@ == "uart"@ { uart_spec(x@) is Ok }
                else if k@ == "vcc_control"@ { vcc_spec(x@) is Ok } else { bool_or(bool_field(x@, "enabled"@), false) is Ok }),
            Err(_) => if k@ == "spi"@ { spi_spec(x@) is Err } else if k@ == "uart"@ { uart_spec(x@) is Err }
                else if k@ == "vcc_control"@ { vcc_spec(x@) is Err } else { bool_or(bool_field(x@, "enabled"@), false) is Err },
        },
{
    let mut c = CapabilitySet {
        spi: match &caps.spi {
            Some(sp) => Some(SpiCapability { pins: clone_pins(&sp.pins), max_frame: sp.max_frame, max_freq_khz: sp.max_freq_khz }),
            None => None,
        },
        uart: match &caps.uart {
            Some(u) => Some(UartCapability { endpoint: clone_endpoint(&u.endpoint) }),
            None => None,
        },
        i2c: caps.i2c,
        gpio: caps.gpio,
        vcc_control: match &caps.vcc_control {
            Some(p) => Some(PowerCapability { range_mv: p.range_mv }),
            None => None,
        },
        wp_control: caps.wp_control,
    };
    assert(c == *caps);
    if str_eq(k, "spi") {
        c.spi = parse_spi(x)?;
    } else if str_eq(k, "uart") {
        c.uart = parse_uart(x)?;
    } else if str_eq(k, "vcc_control") {
        c.vcc_control = parse_vcc(x)?;
    } else {
        let b = bool_or_exec(boolean_field(x, "enabled"), false)?;
        if str_eq(k, "i2c") {
            c.i2c = b;
        } else if str_eq(k, "gpio") {
            c.gpio = b;
        } else {
            c.wp_control = b;
        }
    }
    Ok(c)
}

proof fn lemma_caps_fold_err(t: Seq<(String, TomlValue)>, a: int, b: int)
    requires
        0 <= a <= b,
        caps_fold(t, a) is Err,
    ensures
        caps_fold(t, b) is Err,
    decreases b - a,
{
    if a < b {
        lemma_caps_fold_err(t, a, b - 1);
    }
}

fn parse_capabilities(root: &Vec<(String, TomlValue)>) -> (r: Result<CapabilitySet, String>)
    ensures
        match r {
            Ok(c) => caps_spec(root@) == Ok::<CapabilitySet, ()>(c),
            Err(_) => caps_spec(root@) is Err,
        },
{
    let t = match get(root, "capabilities") {
        None => {
            return Ok(CapabilitySet::default());
        },
        Some(TomlValue::Table(t)) => t,
        Some(_) => {
            return Err("[capabilities] must be a table".to_string());
        },
    };
    let mut caps = CapabilitySet::default();
    let mut i: usize = 0;
    while i < t.len()
        invariant
            i <= t@.len(),
            caps_spec(root@) == caps_fold(t@, t@.len() as int),
            caps_fold(t@, i as int) == Ok::<CapabilitySet, ()>(caps),
        decreases t@.len() - i,
    {
        let k = t[i].0.as_str();
        let is_cap = str_eq(k, "spi") || str_eq(k, "uart") || str_eq(k, "i2c") || str_eq(k, "gpio")
            || str_eq(k, "vcc_control") || str_eq(k, "wp_control");
        if is_cap {
            let x = match &t[i].1 {
                TomlValue::Table(x) => x,
                _ => {
                    proof {
                        assert(caps_fold(t@, i + 1) is Err);
                        lemma_caps_fold_err(t@, i + 1, t@.len() as int);
                    }
                    return Err(crate::text::msg_join3("[capabilities.", k, "] must be a table"));
                },
            };
            let step = capability_step(&caps, k, x);
            match step {
                Ok(c) => {
                    caps = c;
                },
                Err(e) => {
                    proof {
                        assert(caps_fold(t@, i + 1) is Err);
                        lemma_caps_fold_err(t@, i + 1, t@.len() as int);
                    }
                    return Err(e);
                },
            }
        }
        i = i + 1;
    }
    Ok(caps)
}

/// The `[package]` fields are well-formed: name, entry, a semantic
/// version, a 32-bit `plugin_api`, a known kind and (when given) layer, and
/// well-typed optional fields.
pub open spec fn package_valid(p: Seq<(String, TomlValue)>) -> bool {
    &&& str_field(p, "name"@) matches Ok(Some(_))
    &&& str_field(p, "version"@) matches Ok(Some(v)) && semver_version_ok(v@)
    &&& int_field(p, "plugin_api"@) matches Ok(Some(x)) && 0 <= x <= u32::MAX
    &&& str_field(p, "kind"@) matches Ok(Some(k)) && spec_kind_of(k@) is Some
    &&& str_field(p, "layer"@) is Ok
    &&& (str_field(p, "layer"@) matches Ok(Some(l)) ==> spec_layer_of(l@) is Some)
    &&& str_field(p, "entry"@) matches Ok(Some(_))
    &&& str_field(p, "provider"@) is Ok
    &&& strs_field(p, "os"@) is Ok
    &&& strs_field(p, "arch"@) is Ok
    &&& str_field(p, "app"@) is Ok
}

/// The document's root table and its `[package]` table.
pub open spec fn manifest_tables(text: Seq<char>) -> Option<(Seq<(String, TomlValue)>, Seq<(String, TomlValue)>)> {
    match toml_document(text) {
        Some(TomlValue::Table(root)) => match lookup_value(root@, "package"@) {
            Some(TomlValue::Table(p)) => Some((root@, p@)),
            _ => None,
        },
        _ => None,
    }
}

/// Whether `text` is a valid manifest: valid TOML with a well-formed
/// `[package]`, dependencies, permissions and capabilities, the
/// capabilities consistent with themselves.
pub open spec fn manifest_valid(text: Seq<char>) -> bool {
    match manifest_tables(text) {
        Some((root, p)) => {
            &&& package_valid(p)
            &&& deps_spec(root) is Ok
            &&& perms_valid(root)
            &&& caps_spec(root) matches Ok(c) && !spi_pins_missing(c, c) && !vcc_unsatisfiable(c, c)
        },
        None => false,
    }
}

/// `m` holds the fields of the manifest `text`.
pub open spec fn manifest_fields(m: PluginManifest, text: Seq<char>) -> bool {
    match manifest_tables(text) {
        Some((root, p)) => {
            &&& str_field(p, "name"@) == Ok::<Option<String>, ()>(Some(m.name))
            &&& str_field(p, "version"@) == Ok::<Option<String>, ()>(Some(m.version))
            &&& int_field(p, "plugin_api"@) == Ok::<Option<i64>, ()>(Some(m.plugin_api as i64))
            &&& spec_kind_of(str_field(p, "kind"@)->Ok_0->Some_0@) == Some(m.kind)
            &&& m.layer == (match str_field(p, "layer"@) {
                Ok(Some(l)) => spec_layer_of(l@)->Some_0,
                _ => spec_default_layer(m.kind),
            })
            &&& str_field(p, "entry"@) == Ok::<Option<String>, ()>(Some(m.entry))
            &&& str_field(p, "provider"@) == Ok::<Option<String>, ()>(m.provider)
            &&& strs_field(p, "os"@) == Ok::<Seq<String>, ()>(m.os@)
            &&& strs_field(p, "arch"@) == Ok::<Seq<String>, ()>(m.arch@)
            &&& str_field(p, "app"@) == Ok::<Option<String>, ()>(m.app)
            &&& deps_spec(root) == Ok::<Seq<(String, String)>, ()>(dep_pairs(m.dependencies@))
            &&& perms_ok(root, m.permissions)
            &&& caps_spec(root) == Ok::<CapabilitySet, ()>(m.capabilities)
        },
        None => false,
    }
}

fn required_string(t: &Vec<(String, TomlValue)>, key: &str, missing: &str) -> (r: Result<String, String>)
    ensures
        match r {
            Ok(s) => str_field(t@, key@) == Ok::<Option<String>, ()>(Some(s)),
            Err(_) => !(str_field(t@, key@) matches Ok(Some(_))),
        },
{
    match string_field(t, key)? {
        Some(s) => Ok(s),
        None => Err(String::from_str(missing)),
    }
}

impl PluginManifest {
    /// Parse a plugin manifest (TOML). Required: `[package]` with `name`,
    /// `version` (semantic), `plugin_api` (32-bit), `kind` and `entry`; the
    /// `layer` defaults by kind. Dependencies, permissions (default deny)
    /// and capabilities (default deny-all) are optional; declared
    /// capabilities must be consistent with themselves.
    pub fn parse(toml_text: &str) -> (r: Result<PluginManifest, String>)
        ensures
            r is Ok <==> manifest_valid(toml_text@),
            r matches Ok(m) ==> manifest_fields(m, toml_text@),
    {
        let root = match parse_toml(toml_text) {
            Ok(TomlValue::Table(t)) => t,
            Ok(_) => {
                return Err("manifest root must be a TOML table".to_string());
            },
            Err(e) => {
                return Err(crate::text::msg_join("invalid TOML: ", e.as_str()));
            },
        };
        let package = match get(&root, "package") {
            Some(TomlValue::Table(p)) => p,
            _ => {
                return Err("missing [package] section".to_string());
            },
        };
        let name = required_string(package, "name", "missing package.name")?;
        let version = required_string(package, "version", "missing package.version")?;
        match check_version(version.as_str()) {
            Ok(()) => {},
            Err(e) => {
                return Err(crate::text::msg_join3("invalid package.version '", version.as_str(), crate::text::msg_join("': ", e.as_str()).as_str()));
            },
        }
        let plugin_api = match integer_field(package, "plugin_api")? {
            Some(x) => x,
            None => {
                return Err("missing package.plugin_api".to_string());
            },
        };
        if plugin_api < 0 || plugin_api > 0xFFFF_FFFF {
            return Err("package.plugin_api must fit in u32".to_string());
        }
        let plugin_api = plugin_api as u32;
        let kind_text = required_string(package, "kind", "missing package.kind")?;
        let kind = PluginKind::parse(kind_text.as_str())?;
        let layer = match string_field(package, "layer")? {
            Some(l) => PluginLayer::parse(l.as_str())?,
            None => PluginLayer::default_for(kind),
        };
        let entry = required_string(package, "entry", "missing package.entry")?;
        let provider = string_field(package, "provider")?;
        let os = string_array_field(package, "os")?;
        let arch = string_array_field(package, "arch")?;
        let app = string_field(package, "app")?;
        let dependencies = parse_dependencies(&root)?;
        let permissions = parse_permissions(&root)?;
        let capabilities = parse_capabilities(&root)?;
        let check = clone_capabilities(&capabilities);
        match check.expose(&capabilities) {
            Ok(_) => {},
            Err(e) => {
                return Err(crate::text::msg_join("invalid capabilities: ", e.as_str()));
            },
        }
        Ok(PluginManifest {
            name,
            version,
            plugin_api,
            kind,
            layer,
            entry,
            dependencies,
            permissions,
            capabilities,
            os,
            arch,
            app,
            provider,
        })
    }
}

/// A copy of a capability set.
pub fn clone_capabilities(caps: &CapabilitySet) -> (c: CapabilitySet)
    ensures
        c == *caps,
{
    CapabilitySet {
        spi: match &caps.spi {
            Some(sp) => Some(SpiCapability { pins: clone_pins(&sp.pins), max_frame: sp.max_frame, max_freq_khz: sp.max_freq_khz }),
            None => None,
        },
        uart: match &caps.uart {
            Some(u) => Some(UartCapability { endpoint: clone_endpoint(&u.endpoint) }),
            None => None,
        },
        i2c: caps.i2c,
        gpio: caps.gpio,
        vcc_control: match &caps.vcc_control {
            Some(p) => Some(PowerCapability { range_mv: p.range_mv }),
            None => None,
        },
        wp_control: caps.wp_control,
    }
}

// ─────────────────────────────── manager ─────────────────────────────────

/// `semver::VersionReq::parse`: whether `text` is a version requirement
/// (the error is the parser's message).
#[verifier::external_body]
fn check_requirement(text: &str) -> (r: Result<(), String>)
    ensures
        r is Ok <==> semver_req_ok(text@),
{
    match semver::VersionReq::parse(text) {
        Ok(_) => Ok(()),
        Err(e) => Err(e.to_string()),
    }
}

/// A successfully parsed plugin directory.
pub struct LoadedPlugin {
    pub manifest: PluginManifest,
    /// The plugin's directory.
    pub path: String,
    pub enabled: bool,
    /// Loaded from `plugins/builtin/` (part of the shipped set).
    pub builtin: bool,
}

/// In-memory plugin registry.
pub struct PluginManager {
    pub plugins: Vec<LoadedPlugin>,
    /// `(plugin name or manifest path, error)` for skipped invalid plugins.
    pub errors: Vec<(String, String)>,
}

/// The first plugin named `name`.
pub open spec fn find_plugin(plugins: Seq<LoadedPlugin>, name: Seq<char>) -> Option<int>
    decreases plugins.len(),
{
    if plugins.len() == 0 {
        None
    } else {
        match find_plugin(plugins.drop_last(), name) {
            Some(i) => Some(i),
            None => if plugins.last().manifest.name@ == name { Some(plugins.len() - 1) } else { None },
        }
    }
}

proof fn lemma_find_plugin(plugins: Seq<LoadedPlugin>, name: Seq<char>)
    ensures
        find_plugin(plugins, name) matches Some(i) ==> 0 <= i < plugins.len() && plugins[i].manifest.name@ == name,
        find_plugin(plugins, name) is None ==> forall|i: int| 0 <= i < plugins.len() ==> plugins[i].manifest.name@ != name,
    decreases plugins.len(),
{
    if plugins.len() > 0 {
        lemma_find_plugin(plugins.drop_last(), name);
        assert forall|i: int| 0 <= i < plugins.len() - 1 implies plugins[i] == plugins.drop_last()[i] by {}
    }
}

fn find_plugin_exec(plugins: &Vec<LoadedPlugin>, name: &str) -> (r: Option<usize>)
    ensures
        match r {
            Some(i) => find_plugin(plugins@, name@) == Some(i as int) && i < plugins@.len(),
            None => find_plugin(plugins@, name@) is None,
        },
{
    let mut i: usize = 0;
    while i < plugins.len()
        invariant
            i <= plugins@.len(),
            find_plugin(plugins@.take(i as int), name@) is None,
        decreases plugins@.len() - i,
    {
        assert(plugins@.take(i + 1).drop_last() =~= plugins@.take(i as int));
        if str_eq(plugins[i].manifest.name.as_str(), name) {
            assert(find_plugin(plugins@.take(i + 1), name@) == Some(i as int));
            proof {
                lemma_find_prefix(plugins@, name@, i + 1);
            }
            return Some(i);
        }
        i = i + 1;
    }
    assert(plugins@.take(plugins@.len() as int) =~= plugins@);
    None
}

proof fn lemma_find_prefix(plugins: Seq<LoadedPlugin>, name: Seq<char>, k: int)
    requires
        0 <= k <= plugins.len(),
        find_plugin(plugins.take(k), name) is Some,
    ensures
        find_plugin(plugins, name) == find_plugin(plugins.take(k), name),
    decreases plugins.len() - k,
{
    if k < plugins.len() {
        assert(plugins.take(k + 1).drop_last() =~= plugins.take(k));
        lemma_find_prefix(plugins, name, k + 1);
    } else {
        assert(plugins.take(k) =~= plugins);
    }
}

/// The dependency `d` is satisfied when resolved after the names `before`:
/// `uni-base` and compiled-in modules by their version 1.0.0, a loaded
/// plugin by its version, and such a plugin is resolved first.
pub open spec fn dep_ok(plugins: Seq<LoadedPlugin>, d: Dependency, before: Seq<Seq<char>>) -> bool {
    &&& semver_req_ok(d.requirement@)
    &&& if d.name@ == "uni-base"@ || spec_builtin_version(d.name@) is Some {
        semver_version_ok("1.0.0"@) && semver_matches(d.requirement@, "1.0.0"@)
    } else {
        find_plugin(plugins, d.name@) matches Some(j)
            && semver_version_ok(plugins[j].manifest.version@)
            && semver_matches(d.requirement@, plugins[j].manifest.version@)
            && before.contains(d.name@)
    }
}

/// A dependency-first resolution: no name twice; every name a compiled-in
/// module or a loaded plugin whose dependencies are all satisfied by what
/// comes before it.
pub open spec fn resolution_ok(plugins: Seq<LoadedPlugin>, resolved: Seq<Seq<char>>) -> bool {
    &&& resolved.no_duplicates()
    &&& forall|i: int| 0 <= i < resolved.len() ==> {
        ||| #[trigger] spec_builtin_version(resolved[i]) is Some
        ||| (find_plugin(plugins, resolved[i]) matches Some(j) && forall|k: int| 0 <= k < plugins[j].manifest.dependencies@.len()
            ==> dep_ok(plugins, #[trigger] plugins[j].manifest.dependencies@[k], resolved.take(i)))
    }
}

/// The names of loaded plugins, in order.
pub open spec fn plugin_names(plugins: Seq<LoadedPlugin>) -> Seq<Seq<char>> {
    Seq::new(plugins.len(), |i: int| plugins[i].manifest.name@)
}

proof fn lemma_distinct_names_len(a: Seq<Seq<char>>, plugins: Seq<LoadedPlugin>)
    requires
        a.no_duplicates(),
        forall|i: int| 0 <= i < a.len() ==> #[trigger] find_plugin(plugins, a[i]) is Some,
    ensures
        a.len() <= plugins.len(),
{
    let names = plugin_names(plugins);
    a.unique_seq_to_set();
    names.lemma_cardinality_of_set();
    assert forall|x: Seq<char>| a.to_set().contains(x) implies names.to_set().contains(x) by {
        let i = choose|i: int| 0 <= i < a.len() && a[i] == x;
        assert(find_plugin(plugins, a[i]) is Some);
        lemma_find_plugin(plugins, x);
        let j = find_plugin(plugins, x)->0;
        assert(names[j] == x);
    }
    vstd::set_lib::lemma_len_subset(a.to_set(), names.to_set());
}

fn contains_name(v: &Vec<String>, s: &str) -> (r: bool)
    ensures
        r == crate::order::texts(v@).contains(s@),
{
    let mut i: usize = 0;
    while i < v.len()
        invariant
            i <= v@.len(),
            forall|j: int| 0 <= j < i ==> v@[j]@ != s@,
        decreases v@.len() - i,
    {
        if str_eq(v[i].as_str(), s) {
            assert(crate::order::texts(v@)[i as int] == s@);
            return true;
        }
        i = i + 1;
    }
    assert(!crate::order::texts(v@).contains(s@)) by {
        if crate::order::texts(v@).contains(s@) {
            let j = choose|j: int| 0 <= j < crate::order::texts(v@).len() && crate::order::texts(v@)[j] == s@;
            assert(v@[j]@ == s@);
        }
    }
    false
}

/// Each of `names` followed by ` -> `.
pub open spec fn chain_text(names: Seq<Seq<char>>) -> Seq<char>
    decreases names.len(),
{
    if names.len() == 0 {
        Seq::empty()
    } else {
        chain_text(names.drop_last()) + names.last() + " -> "@
    }
}

/// The cycle message: the names from `from` on, then `name`, joined by ` -> `.
fn cycle_message(visiting: &Vec<String>, from: usize, name: &str) -> (r: String)
    requires
        from <= visiting@.len(),
    ensures
        r@ == "dependency cycle: "@ + chain_text(crate::order::texts(visiting@).subrange(from as int, visiting@.len() as int)) + name@,
{
    let mut msg = String::from_str("dependency cycle: ");
    let mut i = from;
    while i < visiting.len()
        invariant
            from <= i <= visiting@.len(),
            msg@ == "dependency cycle: "@ + chain_text(crate::order::texts(visiting@).subrange(from as int, i as int)),
        decreases visiting@.len() - i,
    {
        let ghost before = msg@;
        msg.append(visiting[i].as_str());
        msg.append(" -> ");
        proof {
            let t = crate::order::texts(visiting@);
            assert(t.subrange(from as int, i + 1).drop_last() =~= t.subrange(from as int, i as int));
            assert(msg@ =~= before + visiting@[i as int]@ + " -> "@);
        }
        i = i + 1;
    }
    msg.append(name);
    msg
}

fn position_of(v: &Vec<String>, s: &str) -> (r: Option<usize>)
    ensures
        match r {
            Some(i) => i < v@.len() && v@[i as int]@ == s@,
            None => !crate::order::texts(v@).contains(s@),
        },
{
    let mut i: usize = 0;
    while i < v.len()
        invariant
            i <= v@.len(),
            forall|j: int| 0 <= j < i ==> v@[j]@ != s@,
        decreases v@.len() - i,
    {
        if str_eq(v[i].as_str(), s) {
            return Some(i);
        }
        i = i + 1;
    }
    assert(!crate::order::texts(v@).contains(s@)) by {
        if crate::order::texts(v@).contains(s@) {
            let j = choose|j: int| 0 <= j < crate::order::texts(v@).len() && crate::order::texts(v@)[j] == s@;
            assert(v@[j]@ == s@);
        }
    }
    None
}

use crate::order::texts;

/// Whether every name of `visiting` is a loaded plugin, none twice, and
/// none resolved yet.
pub open spec fn visiting_ok(plugins: Seq<LoadedPlugin>, visiting: Seq<Seq<char>>, resolved: Seq<Seq<char>>) -> bool {
    &&& visiting.no_duplicates()
    &&& forall|i: int| 0 <= i < visiting.len() ==> #[trigger] find_plugin(plugins, visiting[i]) is Some
    &&& forall|i: int| 0 <= i < visiting.len() ==> !resolved.contains(#[trigger] visiting[i])
}

proof fn lemma_resolution_push(plugins: Seq<LoadedPlugin>, resolved: Seq<Seq<char>>, name: Seq<char>)
    requires
        resolution_ok(plugins, resolved),
        !resolved.contains(name),
        spec_builtin_version(name) is Some || (find_plugin(plugins, name) matches Some(j)
            && forall|k: int| 0 <= k < plugins[j].manifest.dependencies@.len() ==> dep_ok(plugins, #[trigger] plugins[j].manifest.dependencies@[k], resolved)),
    ensures
        resolution_ok(plugins, resolved.push(name)),
{
    let r2 = resolved.push(name);
    assert(r2.take(resolved.len() as int) =~= resolved);
    assert forall|i: int| 0 <= i < r2.len() implies {
        ||| #[trigger] spec_builtin_version(r2[i]) is Some
        ||| (find_plugin(plugins, r2[i]) matches Some(j) && forall|k: int| 0 <= k < plugins[j].manifest.dependencies@.len()
            ==> dep_ok(plugins, #[trigger] plugins[j].manifest.dependencies@[k], r2.take(i)))
    } by {
        if i < resolved.len() {
            assert(r2[i] == resolved[i]);
            assert(r2.take(i) =~= resolved.take(i));
        }
    }
    assert(r2.no_duplicates()) by {
        assert forall|a: int, b: int| 0 <= a < r2.len() && 0 <= b < r2.len() && a != b implies r2[a] != r2[b] by {
            if a == resolved.len() as int {
                assert(resolved.contains(r2[b]) ==> r2[b] != name);
            } else if b == resolved.len() as int {
                assert(resolved[a] == r2[a]);
            }
        }
    }
}

proof fn lemma_dep_ok_grows(plugins: Seq<LoadedPlugin>, d: Dependency, a: Seq<Seq<char>>, b: Seq<Seq<char>>)
    requires
        dep_ok(plugins, d, a),
        b.take(a.len() as int) == a,
        a.len() <= b.len(),
    ensures
        dep_ok(plugins, d, b),
{
    if !(d.name@ == "uni-base"@ || spec_builtin_version(d.name@) is Some) {
        let i = choose|i: int| 0 <= i < a.len() && a[i] == d.name@;
        assert(b[i] == b.take(a.len() as int)[i]);
    }
}

/// `name` is a loaded plugin (not a compiled-in module) without
/// dependencies.
pub open spec fn leaf_plugin(plugins: Seq<LoadedPlugin>, name: Seq<char>) -> bool {
    &&& spec_builtin_version(name) is None
    &&& match find_plugin(plugins, name) {
        Some(j) => plugins[j].manifest.dependencies@.len() == 0,
        None => false,
    }
}

impl PluginManager {
    /// Depth-first resolution of `name` (see [`PluginManager::resolve_dependencies`]).
    fn visit(&self, name: &str, resolved: &mut Vec<String>, visiting: &mut Vec<String>) -> (r: Result<(), String>)
        requires
            resolution_ok(self.plugins@, texts(old(resolved)@)),
            visiting_ok(self.plugins@, texts(old(visiting)@), texts(old(resolved)@)),
        ensures
            r is Ok ==> {
                &&& resolution_ok(self.plugins@, texts(final(resolved)@))
                &&& texts(final(resolved)@).contains(name@)
                &&& texts(old(resolved)@).len() <= texts(final(resolved)@).len()
                &&& texts(final(resolved)@).take(texts(old(resolved)@).len() as int) == texts(old(resolved)@)
                &&& texts(final(visiting)@) == texts(old(visiting)@)
                &&& forall|i: int| 0 <= i < texts(old(visiting)@).len() ==> !texts(final(resolved)@).contains(#[trigger] texts(old(visiting)@)[i])
                &&& (!texts(old(resolved)@).contains(name@) ==> texts(final(resolved)@).last() == name@)
            },
            texts(old(resolved)@).contains(name@) ==> r is Ok && final(resolved)@ == old(resolved)@,
            !texts(old(resolved)@).contains(name@) && texts(old(visiting)@).contains(name@) ==> r is Err
                && exists|p: int| 0 <= p < old(visiting)@.len() && #[trigger] texts(old(visiting)@)[p] == name@
                    && r->Err_0@ == "dependency cycle: "@ + chain_text(texts(old(visiting)@).subrange(p, old(visiting)@.len() as int)) + name@,
            !texts(old(resolved)@).contains(name@) && !texts(old(visiting)@).contains(name@) ==> {
                &&& spec_builtin_version(name@) is Some ==> r is Ok && texts(final(resolved)@) == texts(old(resolved)@).push(name@)
                &&& spec_builtin_version(name@) is None && find_plugin(self.plugins@, name@) is None ==> r is Err
                &&& leaf_plugin(self.plugins@, name@) ==> r is Ok && texts(final(resolved)@) == texts(old(resolved)@).push(name@)
            },
        decreases self.plugins@.len() + 1 - old(visiting)@.len(),
    {
        proof {
            lemma_distinct_names_len(texts(visiting@), self.plugins@);
        }
        if contains_name(resolved, name) {
            assert(texts(resolved@).take(texts(resolved@).len() as int) =~= texts(resolved@));
            assert(texts(visiting@) == texts(old(visiting)@));
            return Ok(());
        }
        match position_of(visiting, name) {
            Some(pos) => {
                assert(texts(visiting@)[pos as int] == name@);
                return Err(cycle_message(visiting, pos, name));
            },
            None => {},
        }
        if builtin_version(name).is_some() {
            let ghost r0 = texts(resolved@);
            resolved.push(String::from_str(name));
            proof {
                assert(texts(resolved@) =~= r0.push(name@));
                lemma_resolution_push(self.plugins@, r0, name@);
                assert(texts(resolved@).take(r0.len() as int) =~= r0);
                assert(texts(resolved@)[r0.len() as int] == name@);
                assert forall|i: int| 0 <= i < texts(visiting@).len() implies !texts(resolved@).contains(#[trigger] texts(visiting@)[i]) by {
                    if texts(resolved@).contains(texts(visiting@)[i]) {
                        let k = choose|k: int| 0 <= k < texts(resolved@).len() && texts(resolved@)[k] == texts(visiting@)[i];
                        if k < r0.len() {
                            assert(r0[k] == texts(resolved@)[k]);
                        }
                    }
                }
            }
            return Ok(());
        }
        let idx = match find_plugin_exec(&self.plugins, name) {
            Some(i) => i,
            None => {
                return Err(crate::text::msg_join3("unknown plugin '", name, "'"));
            },
        };
        proof {
            lemma_find_plugin(self.plugins@, name@);
        }
        let ghost v0 = texts(visiting@);
        let ghost res0 = texts(resolved@);
        visiting.push(String::from_str(name));
        proof {
            assert(texts(visiting@) =~= v0.push(name@));
            assert(texts(visiting@).no_duplicates()) by {
                assert forall|a: int, b: int| 0 <= a < texts(visiting@).len() && 0 <= b < texts(visiting@).len() && a != b
                    implies texts(visiting@)[a] != texts(visiting@)[b] by {
                    if a == v0.len() as int {
                        assert(v0.contains(texts(visiting@)[b]) ==> texts(visiting@)[b] != name@);
                    } else if b == v0.len() as int {
                        assert(v0[a] == texts(visiting@)[a]);
                    }
                }
            }
            assert forall|i: int| 0 <= i < texts(visiting@).len() implies #[trigger] find_plugin(self.plugins@, texts(visiting@)[i]) is Some by {
                if i < v0.len() {
                    assert(texts(visiting@)[i] == v0[i]);
                }
            }
            lemma_distinct_names_len(texts(visiting@), self.plugins@);
        }
        let deps = &self.plugins[idx].manifest.dependencies;
        let mut k: usize = 0;
        while k < deps.len()
            invariant
                k <= deps@.len(),
                deps@ == self.plugins@[idx as int].manifest.dependencies@,
                find_plugin(self.plugins@, name@) == Some(idx as int),
                idx < self.plugins@.len(),
                texts(visiting@) == v0.push(name@),
                visiting_ok(self.plugins@, texts(visiting@), texts(resolved@)),
                resolution_ok(self.plugins@, texts(resolved@)),
                res0.len() <= texts(resolved@).len(),
                texts(resolved@).take(res0.len() as int) == res0,
                v0.len() + 1 <= self.plugins@.len(),
                v0.len() == old(visiting)@.len(),
                k == 0 ==> texts(resolved@) == res0,
                !texts(old(resolved)@).contains(name@),
                !texts(old(visiting)@).contains(name@),
                spec_builtin_version(name@) is None,
                forall|j: int| 0 <= j < k ==> dep_ok(self.plugins@, #[trigger] deps@[j], texts(resolved@)),
            decreases deps@.len() - k,
        {
            let dep = &deps[k];
            match check_requirement(dep.requirement.as_str()) {
                Ok(()) => {},
                Err(e) => {
                    return Err(crate::text::msg_join3("plugin '", name, crate::text::msg_join3("' has invalid version requirement '",
                        dep.requirement.as_str(), crate::text::msg_join3("' for '", dep.name.as_str(), crate::text::msg_join("': ", e.as_str()).as_str()).as_str()).as_str()));
                },
            }
            let is_base = str_eq(dep.name.as_str(), "uni-base");
            let builtin = builtin_version(dep.name.as_str());
            if is_base {
                proof {
                    reveal_strlit("1.0.0");
                }
                match requirement_matches(dep.requirement.as_str(), UNI_BASE_API_VERSION) {
                    Ok(true) => {},
                    Ok(false) => {
                        return Err(crate::text::msg_join3("plugin '", name, crate::text::msg_join3("' requires uni-base '",
                            dep.requirement.as_str(), "' but built-in version is 1.0.0").as_str()));
                    },
                    Err(e) => {
                        return Err(e);
                    },
                }
            } else if let Some(version) = builtin {
                proof {
                    reveal_strlit("1.0.0");
                }
                match requirement_matches(dep.requirement.as_str(), version) {
                    Ok(true) => {},
                    Ok(false) => {
                        return Err(crate::text::msg_join3("依赖 ", dep.name.as_str(), crate::text::msg_join3(" 需要 ",
                            dep.requirement.as_str(), crate::text::msg_join("，当前内置版本为 ", version).as_str()).as_str()));
                    },
                    Err(e) => {
                        return Err(e);
                    },
                }
            } else {
                let j = match find_plugin_exec(&self.plugins, dep.name.as_str()) {
                    Some(j) => j,
                    None => {
                        return Err(crate::text::msg_join3("plugin '", name, crate::text::msg_join3("' has unknown dependency '", dep.name.as_str(), "'").as_str()));
                    },
                };
                match requirement_matches(dep.requirement.as_str(), self.plugins[j].manifest.version.as_str()) {
                    Ok(true) => {},
                    Ok(false) => {
                        return Err(crate::text::msg_join3("plugin '", name, crate::text::msg_join3("' requires ", dep.name.as_str(),
                            crate::text::msg_join3(" '", dep.requirement.as_str(), crate::text::msg_join3("' but version ",
                            self.plugins[j].manifest.version.as_str(), " is loaded").as_str()).as_str()).as_str()));
                    },
                    Err(e) => {
                        return Err(e);
                    },
                }
                let ghost before = texts(resolved@);
                let dep_name = self.plugins[j].manifest.name.as_str();
                proof {
                    lemma_find_plugin(self.plugins@, dep.name@);
                }
                assert(visiting@.len() == v0.len() + 1);
                self.visit(dep_name, resolved, visiting)?;
                proof {
                    assert forall|jj: int| 0 <= jj < k implies dep_ok(self.plugins@, #[trigger] deps@[jj], texts(resolved@)) by {
                        lemma_dep_ok_grows(self.plugins@, deps@[jj], before, texts(resolved@));
                    }
                    assert(texts(resolved@).take(res0.len() as int) =~= before.take(res0.len() as int)) by {
                        assert(texts(resolved@).take(before.len() as int) == before);
                    }
                }
            }
            assert(dep_ok(self.plugins@, deps@[k as int], texts(resolved@)));
            k = k + 1;
        }
        let ghost r1 = texts(resolved@);
        assert(texts(visiting@)[v0.len() as int] == name@);
        assert(!r1.contains(name@));
        let ghost vv = visiting@;
        visiting.pop();
        assert(texts(visiting@) =~= v0) by {
            assert(visiting@ =~= vv.drop_last());
            assert forall|i: int| 0 <= i < v0.len() implies texts(visiting@)[i] == v0[i] by {
                assert(texts(vv)[i] == v0.push(name@)[i]);
            }
        }
        resolved.push(String::from_str(name));
        proof {
            assert(texts(resolved@) =~= r1.push(name@));
            lemma_resolution_push(self.plugins@, r1, name@);
            assert(texts(resolved@).take(res0.len() as int) =~= r1.take(res0.len() as int));
            assert(texts(resolved@)[r1.len() as int] == name@);
            assert forall|i: int| 0 <= i < v0.len() implies !texts(resolved@).contains(#[trigger] v0[i]) by {
                assert(v0.push(name@)[i] == v0[i]);
                if texts(resolved@).contains(v0[i]) {
                    let q = choose|q: int| 0 <= q < texts(resolved@).len() && texts(resolved@)[q] == v0[i];
                    if q < r1.len() {
                        assert(r1[q] == texts(resolved@)[q]);
                    } else {
                        assert(v0[i] == name@);
                        assert(v0.push(name@).no_duplicates());
                        assert(v0.push(name@)[v0.len() as int] == name@);
                    }
                }
            }
        }
        Ok(())
    }

    /// Resolve the dependency graph of `name`: compiled-in modules (and the
    /// virtual `uni-base`) are checked by version and need nothing else;
    /// loaded plugins must exist and satisfy each requirement. Returns the
    /// resolved names dependency-first, `name` last; a cycle is an error
    /// naming its path.
    pub fn resolve_dependencies(&self, name: &str) -> (r: Result<Vec<String>, String>)
        ensures
            r matches Ok(v) ==> resolution_ok(self.plugins@, texts(v@)) && texts(v@).last() == name@,
            spec_builtin_version(name@) is None && find_plugin(self.plugins@, name@) is None ==> r is Err,
            spec_builtin_version(name@) is Some ==> (r matches Ok(v) && texts(v@) == seq![name@]),
            leaf_plugin(self.plugins@, name@) ==> (r matches Ok(v) && texts(v@) == seq![name@]),
    {
        let mut resolved: Vec<String> = Vec::new();
        let mut visiting: Vec<String> = Vec::new();
        assert(texts(resolved@) =~= Seq::<Seq<char>>::empty());
        assert(texts(visiting@) =~= Seq::<Seq<char>>::empty());
        self.visit(name, &mut resolved, &mut visiting)?;
        Ok(resolved)
    }
}


// ─────────────────────────────── boot check ───────────────────────────────

/// `needle` occurs in `hay` as a contiguous run.
pub open spec fn occurs_in(hay: Seq<char>, needle: Seq<char>) -> bool {
    exists|i: int| 0 <= i <= hay.len() - needle.len() && #[trigger] hay.subrange(i, i + needle.len()) == needle
}

pub(crate) fn occurs(hay: &Vec<char>, needle: &Vec<char>) -> (r: bool)
    ensures
        r == occurs_in(hay@, needle@),
{
    let n = hay.len();
    if needle.len() == 0 {
        assert(hay@.subrange(0, 0int + needle@.len()) =~= needle@);
        return true;
    }
    if needle.len() > n {
        return false;
    }
    let last = n - needle.len();
    let mut i: usize = 0;
    while i <= last
        invariant
            needle@.len() >= 1,
            n == hay@.len(),
            last == hay@.len() - needle@.len(),
            i <= last + 1,
            forall|k: int| 0 <= k < i ==> #[trigger] hay@.subrange(k, k + needle@.len()) != needle@,
        decreases last + 1 - i,
    {
        let mut j: usize = 0;
        let mut same = true;
        while j < needle.len()
            invariant
                i <= last,
                n == hay@.len(),
                last == hay@.len() - needle@.len(),
                j <= needle@.len(),
                same == (forall|q: int| 0 <= q < j ==> hay@[i + q] == needle@[q]),
            decreases needle@.len() - j,
        {
            if hay[i + j] != needle[j] {
                same = false;
            }
            j = j + 1;
        }
        if same {
            assert(hay@.subrange(i as int, i + needle@.len()) =~= needle@);
            return true;
        }
        assert(hay@.subrange(i as int, i + needle@.len()) != needle@) by {
            let q = choose|q: int| 0 <= q < needle@.len() && hay@[i + q] != needle@[q];
            assert(hay@.subrange(i as int, i + needle@.len())[q] == hay@[i + q]);
        }
        i = i + 1;
    }
    false
}

/// An error key names the required plugin `required`: the key is the
/// name itself, or a manifest path with `/required/` or `\required\` in it.
pub open spec fn spec_error_key_matches(key: Seq<char>, required: Seq<char>) -> bool {
    ||| key == required
    ||| occurs_in(key, seq!['/'] + required + seq!['/'])
    ||| occurs_in(key, seq!['\\'] + required + seq!['\\'])
}

fn enclosed(sep: char, name: &str) -> (r: Vec<char>)
    ensures
        r@ == seq![sep] + name@ + seq![sep],
{
    let mut v: Vec<char> = Vec::new();
    v.push(sep);
    let inner = crate::text::chars_of(name);
    crate::unicode::append_chars(&mut v, &inner);
    v.push(sep);
    v
}

fn error_key_matches(key: &str, required: &str) -> (r: bool)
    ensures
        r == spec_error_key_matches(key@, required@),
{
    if str_eq(key, required) {
        return true;
    }
    let hay = crate::text::chars_of(key);
    if occurs(&hay, &enclosed('/', required)) {
        return true;
    }
    occurs(&hay, &enclosed('\\', required))
}

/// Some recorded error's key names `name`.
pub open spec fn has_error_for(errors: Seq<(String, String)>, name: Seq<char>) -> bool {
    exists|i: int| 0 <= i < errors.len() && spec_error_key_matches(#[trigger] errors[i].0@, name)
}

fn any_error_for(errors: &Vec<(String, String)>, name: &str) -> (r: bool)
    ensures
        r == has_error_for(errors@, name@),
{
    let mut i: usize = 0;
    while i < errors.len()
        invariant
            i <= errors@.len(),
            forall|k: int| 0 <= k < i ==> !spec_error_key_matches(#[trigger] errors@[k].0@, name@),
        decreases errors@.len() - i,
    {
        if error_key_matches(errors[i].0.as_str(), name) {
            return true;
        }
        i = i + 1;
    }
    false
}

/// The names of `names` that some error names, in order.
pub open spec fn boot_invalid(names: Seq<Seq<char>>, errors: Seq<(String, String)>) -> Seq<Seq<char>>
    decreases names.len(),
{
    if names.len() == 0 {
        Seq::empty()
    } else {
        let r = boot_invalid(names.drop_last(), errors);
        if has_error_for(errors, names.last()) { r.push(names.last()) } else { r }
    }
}

/// The names of `names` that no error names and no loaded plugin has, in order.
pub open spec fn boot_missing(names: Seq<Seq<char>>, plugins: Seq<LoadedPlugin>, errors: Seq<(String, String)>) -> Seq<Seq<char>>
    decreases names.len(),
{
    if names.len() == 0 {
        Seq::empty()
    } else {
        let r = boot_missing(names.drop_last(), plugins, errors);
        if !has_error_for(errors, names.last()) && find_plugin(plugins, names.last()) is None {
            r.push(names.last())
        } else {
            r
        }
    }
}

impl PluginManager {
    /// Check the required plugin set against what was loaded: a required
    /// name is `invalid` when an error names it (a parse error, a duplicate),
    /// else `missing` when no plugin of that name was loaded.
    pub fn boot_check(&self) -> (r: BootCheck)
        ensures
            texts(r.missing@) == boot_missing(spec_required_names(), self.plugins@, self.errors@),
            texts(r.invalid@) == boot_invalid(spec_required_names(), self.errors@),
    {
        let names = required_plugin_names();
        let ghost req = spec_required_names();
        let mut missing: Vec<String> = Vec::new();
        let mut invalid: Vec<String> = Vec::new();
        let mut i: usize = 0;
        assert(req.take(0) =~= Seq::<Seq<char>>::empty());
        assert(texts(missing@) =~= Seq::<Seq<char>>::empty());
        assert(texts(invalid@) =~= Seq::<Seq<char>>::empty());
        while i < names.len()
            invariant
                i <= names@.len(),
                names@.len() == 5,
                req == spec_required_names(),
                forall|k: int| 0 <= k < 5 ==> #[trigger] names@[k]@ == req[k],
                texts(missing@) == boot_missing(req.take(i as int), self.plugins@, self.errors@),
                texts(invalid@) == boot_invalid(req.take(i as int), self.errors@),
            decreases names@.len() - i,
        {
            let ghost t = req.take(i + 1);
            assert(t.drop_last() =~= req.take(i as int));
            assert(t.last() == names@[i as int]@);
            let ghost m0 = texts(missing@);
            let ghost v0 = texts(invalid@);
            if any_error_for(&self.errors, names[i]) {
                invalid.push(String::from_str(names[i]));
                assert(texts(invalid@) =~= v0.push(names@[i as int]@));
            } else if find_plugin_exec(&self.plugins, names[i]).is_none() {
                missing.push(String::from_str(names[i]));
                assert(texts(missing@) =~= m0.push(names@[i as int]@));
            }
            i = i + 1;
        }
        assert(req.take(5) =~= req);
        BootCheck { missing, invalid }
    }
}


// ─────────────────────────────── enable / disable ───────────────────────────────

/// `list` is empty (no restriction) or holds `value`.
pub open spec fn allows(list: Seq<String>, value: Seq<char>) -> bool {
    list.len() == 0 || exists|i: int| 0 <= i < list.len() && #[trigger] list[i]@ == value
}

/// The manifest targets this host's plugin API and allows the given OS and
/// architecture.
pub open spec fn platform_ok(m: PluginManifest, os: Seq<char>, arch: Seq<char>) -> bool {
    &&& m.plugin_api == PLUGIN_API_VERSION
    &&& allows(m.os@, os)
    &&& allows(m.arch@, arch)
}

/// A loaded plugin `name` exists and may run on `os`/`arch`.
pub open spec fn enable_allowed(plugins: Seq<LoadedPlugin>, name: Seq<char>, os: Seq<char>, arch: Seq<char>) -> bool {
    match find_plugin(plugins, name) {
        Some(i) => platform_ok(plugins[i].manifest, os, arch),
        None => false,
    }
}

/// `plugins` with the enabled flag of plugin `i` set to `on`.
pub open spec fn with_enabled(plugins: Seq<LoadedPlugin>, i: int, on: bool) -> Seq<LoadedPlugin> {
    plugins.update(i, LoadedPlugin {
        manifest: plugins[i].manifest,
        path: plugins[i].path,
        enabled: on,
        builtin: plugins[i].builtin,
    })
}

fn allows_exec(list: &Vec<String>, value: &str) -> (r: bool)
    ensures
        r == allows(list@, value@),
{
    if list.len() == 0 {
        return true;
    }
    let mut i: usize = 0;
    while i < list.len()
        invariant
            i <= list@.len(),
            forall|k: int| 0 <= k < i ==> #[trigger] list@[k]@ != value@,
        decreases list@.len() - i,
    {
        if str_eq(list[i].as_str(), value) {
            return true;
        }
        i = i + 1;
    }
    false
}

/// The texts `s` joined by `, `.
pub open spec fn comma_joined(s: Seq<Seq<char>>) -> Seq<char>
    decreases s.len(),
{
    if s.len() == 0 {
        Seq::empty()
    } else if s.len() == 1 {
        s[0]
    } else {
        comma_joined(s.drop_last()) + ", "@ + s.last()
    }
}

/// The items of `list` joined by `, `.
fn join_comma(list: &Vec<String>) -> (r: String)
    ensures
        r@ == comma_joined(crate::order::texts(list@)),
{
    let mut out = String::from_str("");
    let mut i: usize = 0;
    proof {
        reveal_strlit("");
    }
    while i < list.len()
        invariant
            i <= list@.len(),
            out@ == comma_joined(crate::order::texts(list@).take(i as int)),
        decreases list@.len() - i,
    {
        let ghost before = out@;
        if i > 0 {
            out.append(", ");
        }
        out.append(list[i].as_str());
        proof {
            let t = crate::order::texts(list@);
            assert(t.take(i + 1).drop_last() =~= t.take(i as int));
            if i > 0 {
                assert(out@ =~= before + ", "@ + t.take(i + 1).last());
            } else {
                assert(before.len() == 0);
                assert(out@ =~= t.take(i + 1)[0]);
            }
        }
        i = i + 1;
    }
    assert(crate::order::texts(list@).take(list@.len() as int) =~= crate::order::texts(list@));
    out
}

impl PluginManager {
    fn set_enabled(&mut self, i: usize, on: bool)
        requires
            i < old(self).plugins@.len(),
        ensures
            final(self).plugins@ == with_enabled(old(self).plugins@, i as int, on),
            final(self).errors@ == old(self).errors@,
    {
        self.plugins[i].enabled = on;
        assert(self.plugins@ =~= with_enabled(old(self).plugins@, i as int, on));
    }

    /// The compatibility checks of [`PluginManager::enable`] on plugin `i`.
    fn check_platform(&self, i: usize, name: &str, os: &str, arch: &str) -> (r: Result<(), String>)
        requires
            i < self.plugins@.len(),
        ensures
            r is Ok <==> platform_ok(self.plugins@[i as int].manifest, os@, arch@),
    {
        let m = &self.plugins[i].manifest;
        if m.plugin_api != PLUGIN_API_VERSION {
            return Err(crate::text::msg_join3("plugin '", name, crate::text::msg_u64("' targets plugin_api ",
                m.plugin_api as u64, " but this host implements 1").as_str()));
        }
        if !allows_exec(&m.os, os) {
            return Err(crate::text::msg_join3("plugin '", name, crate::text::msg_join3("' is not compatible with OS '", os,
                crate::text::msg_join3("' (allowed: ", join_comma(&m.os).as_str(), ")").as_str()).as_str()));
        }
        if !allows_exec(&m.arch, arch) {
            return Err(crate::text::msg_join3("plugin '", name, crate::text::msg_join3("' is not compatible with arch '", arch,
                crate::text::msg_join3("' (allowed: ", join_comma(&m.arch).as_str(), ")").as_str()).as_str()));
        }
        Ok(())
    }

    /// Enable a plugin after checking its plugin API, the host's OS and
    /// architecture (`os`, `arch`: the names Rust gives them, such as
    /// `linux`, `x86_64`) and its dependencies. Required plugins are always
    /// enabled: enabling one succeeds and changes nothing.
    pub fn enable(&mut self, name: &str, os: &str, arch: &str) -> (r: Result<(), String>)
        ensures
            spec_required_names().contains(name@) ==> r is Ok && *final(self) == *old(self),
            !spec_required_names().contains(name@) && !enable_allowed(old(self).plugins@, name@, os@, arch@) ==> r is Err,
            r is Err ==> *final(self) == *old(self),
            r is Ok && !spec_required_names().contains(name@) ==> {
                &&& enable_allowed(old(self).plugins@, name@, os@, arch@)
                &&& final(self).plugins@ == with_enabled(old(self).plugins@, find_plugin(old(self).plugins@, name@)->0, true)
                &&& final(self).errors@ == old(self).errors@
                &&& exists|order: Seq<Seq<char>>| resolution_ok(old(self).plugins@, order) && order.last() == name@
            },
    {
        if is_required_plugin(name) {
            return Ok(());
        }
        let index = match find_plugin_exec(&self.plugins, name) {
            Some(i) => i,
            None => {
                return Err(crate::text::msg_join3("unknown plugin '", name, "'"));
            },
        };
        self.check_platform(index, name, os, arch)?;
        let order = self.resolve_dependencies(name)?;
        assert(resolution_ok(self.plugins@, texts(order@)) && texts(order@).last() == name@);
        self.set_enabled(index, true);
        Ok(())
    }

    /// Disable a plugin (in memory). Required plugins cannot be disabled.
    pub fn disable(&mut self, name: &str) -> (r: Result<(), String>)
        ensures
            r is Ok <==> !spec_required_names().contains(name@) && find_plugin(old(self).plugins@, name@) is Some,
            r is Err ==> *final(self) == *old(self),
            r is Ok ==> final(self).plugins@ == with_enabled(old(self).plugins@, find_plugin(old(self).plugins@, name@)->0, false)
                && final(self).errors@ == old(self).errors@,
            r matches Err(e) ==> e@ == if spec_required_names().contains(name@) {
                "required plugin '"@ + name@ + "' cannot be disabled"@
            } else {
                "unknown plugin '"@ + name@ + "'"@
            },
    {
        if is_required_plugin(name) {
            return Err(crate::text::msg_join3("required plugin '", name, "' cannot be disabled"));
        }
        match find_plugin_exec(&self.plugins, name) {
            Some(i) => {
                self.set_enabled(i, false);
                Ok(())
            },
            None => Err(crate::text::msg_join3("unknown plugin '", name, "'")),
        }
    }
}


// ─────────────────────────────── loading ───────────────────────────────

/// One manifest found when scanning `plugins/*` and then
/// `plugins/builtin/*` (a directory's `unipkg.toml` preferred to its
/// `manifest.toml`).
pub struct ScannedManifest {
    /// The plugin directory.
    pub dir: String,
    /// The manifest file that was read.
    pub manifest_path: String,
    /// The manifest's text, or why it could not be read.
    pub text: Result<String, String>,
    /// Found under `plugins/builtin/`.
    pub builtin: bool,
}

/// The enabled flag that the persisted state gives `name` (a later entry
/// overrides an earlier one).
pub open spec fn state_of(state: Seq<(String, bool)>, name: Seq<char>) -> Option<bool>
    decreases state.len(),
{
    if state.len() == 0 {
        None
    } else if state.last().0@ == name {
        Some(state.last().1)
    } else {
        state_of(state.drop_last(), name)
    }
}

fn state_lookup(state: &Vec<(String, bool)>, name: &str) -> (r: Option<bool>)
    ensures
        r == state_of(state@, name@),
{
    let mut i = state.len();
    assert(state@.take(i as int) =~= state@);
    while i > 0
        invariant
            i <= state@.len(),
            state_of(state@, name@) == state_of(state@.take(i as int), name@),
        decreases i,
    {
        let ghost t = state@.take(i as int);
        assert(t.drop_last() =~= state@.take(i - 1));
        assert(t.last() == state@[i - 1]);
        if str_eq(state[i - 1].0.as_str(), name) {
            return Some(state[i - 1].1);
        }
        i = i - 1;
    }
    None
}

/// Whether a freshly loaded plugin starts enabled: a required one always;
/// otherwise as the persisted state says, by default on for a built-in
/// plugin and off for a third-party one.
pub open spec fn initial_enabled(m: PluginManifest, builtin: bool, state: Seq<(String, bool)>) -> bool {
    if m.layer == PluginLayer::Required {
        true
    } else {
        match state_of(state, m.name@) {
            Some(b) => b,
            None => builtin,
        }
    }
}

/// The scan entry `s` holds a valid manifest whose fields are those of `m`.
pub open spec fn scanned_manifest(s: ScannedManifest, m: PluginManifest) -> bool {
    s.text matches Ok(t) && manifest_valid(t@) && manifest_fields(m, t@)
}

/// The plugin `p` was loaded from the scan entry `s`.
pub open spec fn admitted(s: ScannedManifest, state: Seq<(String, bool)>, p: LoadedPlugin) -> bool {
    &&& scanned_manifest(s, p.manifest)
    &&& p.path@ == s.dir@
    &&& p.builtin == s.builtin
    &&& p.enabled == initial_enabled(p.manifest, s.builtin, state)
}

/// The plugin `p` was loaded from some scan entry.
pub open spec fn from_scan(scanned: Seq<ScannedManifest>, state: Seq<(String, bool)>, p: LoadedPlugin) -> bool {
    exists|j: int| 0 <= j < scanned.len() && #[trigger] admitted(scanned[j], state, p)
}

/// Every plugin was loaded from some scan entry.
pub open spec fn all_admitted(scanned: Seq<ScannedManifest>, state: Seq<(String, bool)>, plugins: Seq<LoadedPlugin>) -> bool {
    forall|i: int| 0 <= i < plugins.len() ==> #[trigger] from_scan(scanned, state, plugins[i])
}

/// `key` is the manifest path of some scan entry.
pub open spec fn scanned_path(scanned: Seq<ScannedManifest>, key: Seq<char>) -> bool {
    exists|j: int| 0 <= j < scanned.len() && #[trigger] scanned[j].manifest_path@ == key
}

/// Every error is recorded under the manifest path of some scan entry.
pub open spec fn errors_from(scanned: Seq<ScannedManifest>, errors: Seq<(String, String)>) -> bool {
    forall|k: int| 0 <= k < errors.len() ==> #[trigger] scanned_path(scanned, errors[k].0@)
}

proof fn lemma_find_push(plugins: Seq<LoadedPlugin>, p: LoadedPlugin, name: Seq<char>)
    ensures
        find_plugin(plugins.push(p), name) == (match find_plugin(plugins, name) {
            Some(k) => Some(k),
            None => if p.manifest.name@ == name { Some(plugins.len() as int) } else { None },
        }),
{
    assert(plugins.push(p).drop_last() =~= plugins);
}

impl PluginManager {
    /// Build the registry from the scanned manifests, in scan order: an
    /// unreadable or invalid manifest, or a second one with a name already
    /// loaded, is recorded in `errors` under its manifest path; every other
    /// one is loaded with its initial enabled flag (see [`initial_enabled`]).
    pub fn load(scanned: &Vec<ScannedManifest>, state: &Vec<(String, bool)>) -> (r: PluginManager)
        ensures
            plugin_names(r.plugins@).no_duplicates(),
            r.plugins@.len() + r.errors@.len() == scanned@.len(),
            all_admitted(scanned@, state@, r.plugins@),
            forall|j: int, m: PluginManifest| 0 <= j < scanned@.len() && #[trigger] scanned_manifest(scanned@[j], m)
                ==> find_plugin(r.plugins@, m.name@) is Some,
            errors_from(scanned@, r.errors@),
    {
        let mut plugins: Vec<LoadedPlugin> = Vec::new();
        let mut errors: Vec<(String, String)> = Vec::new();
        let mut first_paths: Vec<String> = Vec::new();
        let mut i: usize = 0;
        let ghost mut src: Seq<int> = Seq::empty();
        let ghost mut esrc: Seq<int> = Seq::empty();
        assert(plugin_names(plugins@) =~= Seq::<Seq<char>>::empty());
        while i < scanned.len()
            invariant
                i <= scanned@.len(),
                plugins@.len() + errors@.len() == i,
                first_paths@.len() == plugins@.len(),
                plugin_names(plugins@).no_duplicates(),
                src.len() == plugins@.len(),
                esrc.len() == errors@.len(),
                forall|q: int| 0 <= q < plugins@.len() ==> 0 <= #[trigger] src[q] < i && admitted(scanned@[src[q]], state@, plugins@[q]),
                forall|j: int, m: PluginManifest| 0 <= j < i && #[trigger] scanned_manifest(scanned@[j], m)
                    ==> find_plugin(plugins@, m.name@) is Some,
                forall|k: int| 0 <= k < errors@.len() ==> 0 <= #[trigger] esrc[k] < i && errors@[k].0@ == scanned@[esrc[k]].manifest_path@,
            decreases scanned@.len() - i,
        {
            let s = &scanned[i];
            let ghost e0 = errors@;
            match &s.text {
                Err(e) => {
                    errors.push((s.manifest_path.clone(), crate::text::msg_join("failed to read manifest: ", e.as_str())));
                    proof {
                        esrc = esrc.push(i as int);
                        assert forall|k: int| 0 <= k < errors@.len() implies 0 <= #[trigger] esrc[k] < i + 1
                            && errors@[k].0@ == scanned@[esrc[k]].manifest_path@ by {
                            if k < e0.len() {
                                assert(errors@[k] == e0[k]);
                            }
                        }
                    }
                },
                Ok(text) => {
                    match PluginManifest::parse(text.as_str()) {
                        Err(e) => {
                            errors.push((s.manifest_path.clone(), e));
                            proof {
                                esrc = esrc.push(i as int);
                                assert forall|k: int| 0 <= k < errors@.len() implies 0 <= #[trigger] esrc[k] < i + 1
                                    && errors@[k].0@ == scanned@[esrc[k]].manifest_path@ by {
                                    if k < e0.len() {
                                        assert(errors@[k] == e0[k]);
                                    }
                                }
                            }
                        },
                        Ok(m) => {
                            match find_plugin_exec(&plugins, m.name.as_str()) {
                                Some(k) => {
                                    let msg = crate::text::msg_join3("duplicate plugin name '", m.name.as_str(),
                                        crate::text::msg_join3("' (already loaded from ", first_paths[k].as_str(), ")").as_str());
                                    errors.push((s.manifest_path.clone(), msg));
                                    proof {
                                        esrc = esrc.push(i as int);
                                        assert forall|kk: int| 0 <= kk < errors@.len() implies 0 <= #[trigger] esrc[kk] < i + 1
                                            && errors@[kk].0@ == scanned@[esrc[kk]].manifest_path@ by {
                                            if kk < e0.len() {
                                                assert(errors@[kk] == e0[kk]);
                                            }
                                        }
                                    }
                                },
                                None => {
                                    let enabled = match m.layer {
                                        PluginLayer::Required => true,
                                        _ => match state_lookup(state, m.name.as_str()) {
                                            Some(b) => b,
                                            None => s.builtin,
                                        },
                                    };
                                    first_paths.push(s.manifest_path.clone());
                                    let ghost p0 = plugins@;
                                    let lp = LoadedPlugin { manifest: m, path: s.dir.clone(), enabled, builtin: s.builtin };
                                    assert(admitted(scanned@[i as int], state@, lp));
                                    plugins.push(lp);
                                    proof {
                                        lemma_find_plugin(p0, lp.manifest.name@);
                                        assert(plugin_names(plugins@) =~= plugin_names(p0).push(lp.manifest.name@));
                                        assert(plugin_names(plugins@).no_duplicates()) by {
                                            let ns = plugin_names(plugins@);
                                            assert forall|a: int, b: int| 0 <= a < ns.len() && 0 <= b < ns.len() && a != b
                                                implies ns[a] != ns[b] by {
                                                if a == p0.len() as int {
                                                    assert(ns[b] == p0[b].manifest.name@);
                                                } else if b == p0.len() as int {
                                                    assert(ns[a] == p0[a].manifest.name@);
                                                } else {
                                                    assert(ns[a] == plugin_names(p0)[a]);
                                                    assert(ns[b] == plugin_names(p0)[b]);
                                                }
                                            }
                                        }
                                        src = src.push(i as int);
                                        assert forall|q: int| 0 <= q < plugins@.len() implies 0 <= #[trigger] src[q] < i + 1
                                            && admitted(scanned@[src[q]], state@, plugins@[q]) by {
                                            if q < p0.len() {
                                                assert(plugins@[q] == p0[q]);
                                            } else {
                                                assert(plugins@[q] == lp);
                                            }
                                        }
                                        assert forall|j: int, mm: PluginManifest| 0 <= j < i + 1 && #[trigger] scanned_manifest(scanned@[j], mm)
                                            implies find_plugin(plugins@, mm.name@) is Some by {
                                            lemma_find_push(p0, lp, mm.name@);
                                        }
                                    }
                                },
                            }
                        },
                    }
                },
            }
            i = i + 1;
        }
        proof {
            assert forall|k: int| 0 <= k < errors@.len() implies #[trigger] scanned_path(scanned@, errors@[k].0@) by {
                assert(scanned@[esrc[k]].manifest_path@ == errors@[k].0@);
            }
            assert forall|q: int| 0 <= q < plugins@.len() implies #[trigger] from_scan(scanned@, state@, plugins@[q]) by {
                assert(admitted(scanned@[src[q]], state@, plugins@[q]));
            }
        }
        PluginManager { plugins, errors }
    }
}


// ─────────────────────────────── persisted state ───────────────────────────────

/// Name/flag pairs as plain values.
pub open spec fn state_view(v: Seq<(String, bool)>) -> Seq<(Seq<char>, bool)> {
    Seq::new(v.len(), |i: int| (v[i].0@, v[i].1))
}

/// The boolean entries of a table, in order; other values are skipped.
pub open spec fn bool_entries(t: Seq<(String, TomlValue)>) -> Seq<(Seq<char>, bool)>
    decreases t.len(),
{
    if t.len() == 0 {
        Seq::empty()
    } else {
        let r = bool_entries(t.drop_last());
        match t.last().1 {
            TomlValue::Bool(b) => r.push((t.last().0@, b)),
            _ => r,
        }
    }
}

/// The state a `plugin-state.toml` text holds: the boolean entries of its
/// `[plugins]` table; nothing when the text is not TOML or has no such
/// table.
pub open spec fn spec_plugin_state(text: Seq<char>) -> Seq<(Seq<char>, bool)> {
    match toml_document(text) {
        Some(TomlValue::Table(root)) => match lookup_value(root@, "plugins"@) {
            Some(TomlValue::Table(t)) => bool_entries(t@),
            _ => Seq::empty(),
        },
        _ => Seq::empty(),
    }
}

/// Read the persisted enable/disable state (`plugin name -> enabled`).
/// Malformed text, and entries whose value is not a boolean, are skipped.
pub fn parse_plugin_state(text: &str) -> (r: Vec<(String, bool)>)
    ensures
        state_view(r@) == spec_plugin_state(text@),
{
    let mut out: Vec<(String, bool)> = Vec::new();
    assert(state_view(out@) =~= Seq::<(Seq<char>, bool)>::empty());
    let root = match parse_toml(text) {
        Ok(TomlValue::Table(t)) => t,
        _ => {
            return out;
        },
    };
    let table = match get(&root, "plugins") {
        Some(TomlValue::Table(t)) => t,
        _ => {
            return out;
        },
    };
    let mut i: usize = 0;
    assert(table@.take(0) =~= Seq::<(String, TomlValue)>::empty());
    while i < table.len()
        invariant
            i <= table@.len(),
            state_view(out@) == bool_entries(table@.take(i as int)),
        decreases table@.len() - i,
    {
        assert(table@.take(i + 1).drop_last() =~= table@.take(i as int));
        assert(table@.take(i + 1).last() == table@[i as int]);
        let ghost o0 = state_view(out@);
        match &table[i].1 {
            TomlValue::Bool(b) => {
                out.push((table[i].0.clone(), *b));
                assert(state_view(out@) =~= o0.push((table@[i as int].0@, *b)));
            },
            _ => {},
        }
        i = i + 1;
    }
    assert(table@.take(table@.len() as int) =~= table@);
    out
}

/// The entries to persist: every plugin outside the required layer with its
/// enabled flag, in registry order.
pub open spec fn spec_state_entries(plugins: Seq<LoadedPlugin>) -> Seq<(Seq<char>, bool)>
    decreases plugins.len(),
{
    if plugins.len() == 0 {
        Seq::empty()
    } else {
        let r = spec_state_entries(plugins.drop_last());
        if plugins.last().manifest.layer == PluginLayer::Required {
            r
        } else {
            r.push((plugins.last().manifest.name@, plugins.last().enabled))
        }
    }
}

/// The state document: one table `plugins` mapping each name of `entries`
/// to its flag, in order.
pub open spec fn state_document(doc: TomlValue, entries: Seq<(Seq<char>, bool)>) -> bool {
    match doc {
        TomlValue::Table(root) => root@.len() == 1 && root@[0].0@ == "plugins"@ && match root@[0].1 {
            TomlValue::Table(t) => t@.len() == entries.len() && forall|i: int| 0 <= i < entries.len() ==> {
                &&& (#[trigger] t@[i]).0@ == entries[i].0
                &&& t@[i].1 == TomlValue::Bool(entries[i].1)
            },
            _ => false,
        },
        _ => false,
    }
}

/// The state document of `entries` (see [`state_document`]).
fn state_document_of(entries: &Vec<(String, bool)>) -> (doc: TomlValue)
    ensures
        state_document(doc, state_view(entries@)),
        crate::toml_model::writable(doc),
{
    let mut t: Vec<(String, TomlValue)> = Vec::new();
    let mut i: usize = 0;
    while i < entries.len()
        invariant
            i <= entries@.len(),
            t@.len() == i,
            forall|j: int| 0 <= j < i ==> {
                &&& (#[trigger] t@[j]).0@ == state_view(entries@)[j].0
                &&& t@[j].1 == TomlValue::Bool(state_view(entries@)[j].1)
            },
        decreases entries@.len() - i,
    {
        t.push((entries[i].0.clone(), TomlValue::Bool(entries[i].1)));
        i = i + 1;
    }
    assert forall|j: int| 0 <= j < t@.len() implies crate::toml_model::writable(#[trigger] t@[j].1) by {
        assert(t@[j].1 == TomlValue::Bool(state_view(entries@)[j].1));
    }
    let inner = TomlValue::Table(t);
    let mut root: Vec<(String, TomlValue)> = Vec::new();
    root.push((String::from_str("plugins"), inner));
    let doc = TomlValue::Table(root);
    assert(crate::toml_model::writable(inner));
    assert(crate::toml_model::writable(doc));
    doc
}

impl PluginManager {
    /// The enabled flag of every plugin outside the required layer.
    pub fn plugin_state_entries(&self) -> (r: Vec<(String, bool)>)
        ensures
            state_view(r@) == spec_state_entries(self.plugins@),
    {
        let mut out: Vec<(String, bool)> = Vec::new();
        let mut i: usize = 0;
        assert(self.plugins@.take(0) =~= Seq::<LoadedPlugin>::empty());
        assert(state_view(out@) =~= Seq::<(Seq<char>, bool)>::empty());
        while i < self.plugins.len()
            invariant
                i <= self.plugins@.len(),
                state_view(out@) == spec_state_entries(self.plugins@.take(i as int)),
            decreases self.plugins@.len() - i,
        {
            assert(self.plugins@.take(i + 1).drop_last() =~= self.plugins@.take(i as int));
            assert(self.plugins@.take(i + 1).last() == self.plugins@[i as int]);
            let ghost o0 = state_view(out@);
            let p = &self.plugins[i];
            match p.manifest.layer {
                PluginLayer::Required => {},
                _ => {
                    out.push((p.manifest.name.clone(), p.enabled));
                    assert(state_view(out@) =~= o0.push((p.manifest.name@, p.enabled)));
                },
            }
            i = i + 1;
        }
        assert(self.plugins@.take(self.plugins@.len() as int) =~= self.plugins@);
        out
    }

    /// The text of `plugin-state.toml` for the current flags.
    pub fn plugin_state_text(&self) -> (r: Result<String, String>)
        ensures
            r matches Ok(s) ==> exists|doc: TomlValue| state_document(doc, spec_state_entries(self.plugins@))
                && s@ == #[trigger] crate::toml_model::toml_text(doc),
    {
        let entries = self.plugin_state_entries();
        let doc = state_document_of(&entries);
        match crate::toml_model::encode_toml(&doc) {
            Ok(s) => Ok(s),
            Err(e) => Err(crate::text::msg_join("failed to encode plugin state: ", e.as_str())),
        }
    }
}

} // verus!
