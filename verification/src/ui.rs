//! The UI service interface: the events core code reports (status, log
//! lines, progress, busy state, theme and language changes), the dialog
//! requests a shell answers, and the one trait a shell implements.
use vstd::prelude::*;

verus! {

/// Severity of a user-visible log or status message.
#[derive(Clone, Copy, Debug, PartialEq, Eq, Structural)]
pub enum UiLogLevel {
    Debug,
    Info,
    Warn,
    Error,
}

/// Visual theme requested by the user.
#[derive(Clone, Copy, Debug, PartialEq, Eq, Structural)]
pub enum UiTheme {
    System,
    Light,
    Dark,
}

impl Default for UiTheme {
    fn default() -> (r: UiTheme)
        ensures
            r == UiTheme::System,
    {
        UiTheme::System
    }
}

/// An event pushed from core to the UI shell. `task` of a progress event
/// is a stable ASCII identifier (`read`, `write`, `verify`, `erase`,
/// `bad_block`, ...).
#[derive(Clone, Debug, PartialEq, Eq)]
pub enum UiEvent {
    /// A plain user-visible message.
    Status { message: String },
    /// A log line.
    Log { level: UiLogLevel, message: String },
    /// Progress of a long operation; `total == 0` means unknown. The
    /// optional extras serve multi-stage operations.
    Progress {
        task: String,
        done: u64,
        total: u64,
        phase: Option<String>,
        message: Option<String>,
        elapsed_ms: Option<u64>,
    },
    /// Whether a blocking operation is running.
    Busy { running: bool },
    /// The effective theme changed.
    ThemeChanged { theme: UiTheme },
    /// The UI language changed (`zh-CN`, `en-US`, ...).
    LanguageChanged { language: String },
}

impl UiEvent {
    /// A progress event without phase, message or elapsed time.
    pub fn progress(task: &str, done: u64, total: u64) -> (r: UiEvent)
        ensures
            r matches UiEvent::Progress { task: t, done: d, total: n, phase: None, message: None, elapsed_ms: None }
                && t@ == task@ && d == done && n == total,
    {
        UiEvent::Progress {
            task: String::from_str(task),
            done,
            total,
            phase: None,
            message: None,
            elapsed_ms: None,
        }
    }
}

/// A file type filter of open/save dialogs.
#[derive(Clone, Debug, PartialEq, Eq)]
pub struct FileFilter {
    /// Human-readable name, e.g. `Firmware`.
    pub name: String,
    /// Extensions without the leading dot, e.g. `["bin", "hex"]`.
    pub extensions: Vec<String>,
}

impl FileFilter {
    pub fn new(name: &str, extensions: &[&str]) -> (r: FileFilter)
        ensures
            r.name@ == name@,
            r.extensions@.len() == extensions@.len(),
            forall|i: int| 0 <= i < extensions@.len() ==> #[trigger] r.extensions@[i]@ == extensions@[i]@,
    {
        let mut exts: Vec<String> = Vec::new();
        let mut i: usize = 0;
        while i < extensions.len()
            invariant
                i <= extensions@.len(),
                exts@.len() == i,
                forall|k: int| 0 <= k < i ==> #[trigger] exts@[k]@ == extensions@[k]@,
            decreases extensions@.len() - i,
        {
            exts.push(String::from_str(extensions[i]));
            i = i + 1;
        }
        FileFilter { name: String::from_str(name), extensions: exts }
    }
}

/// Style hint of a confirmation.
#[derive(Clone, Copy, Debug, PartialEq, Eq, Structural)]
pub enum ConfirmKind {
    Info,
    Warning,
    Danger,
}

impl Default for ConfirmKind {
    fn default() -> (r: ConfirmKind)
        ensures
            r == ConfirmKind::Info,
    {
        ConfirmKind::Info
    }
}

/// A blocking yes/no question shown by the shell.
#[derive(Clone, Debug)]
pub struct ConfirmRequest {
    pub title: String,
    pub message: String,
    pub confirm_label: String,
    pub cancel_label: String,
    pub kind: ConfirmKind,
}

impl ConfirmRequest {
    /// An informational question with the default labels `确认` / `取消`.
    pub fn new(title: &str, message: &str) -> (r: ConfirmRequest)
        ensures
            r.title@ == title@,
            r.message@ == message@,
            r.confirm_label@ == "确认"@,
            r.cancel_label@ == "取消"@,
            r.kind == ConfirmKind::Info,
    {
        ConfirmRequest {
            title: String::from_str(title),
            message: String::from_str(message),
            confirm_label: String::from_str("确认"),
            cancel_label: String::from_str("取消"),
            kind: ConfirmKind::Info,
        }
    }

    /// The same question, styled as dangerous.
    pub fn danger(self) -> (r: ConfirmRequest)
        ensures
            r.title == self.title,
            r.message == self.message,
            r.confirm_label == self.confirm_label,
            r.cancel_label == self.cancel_label,
            r.kind == ConfirmKind::Danger,
    {
        let mut s = self;
        s.kind = ConfirmKind::Danger;
        s
    }
}

/// The one service a UI shell implements for core code. A shell that owns
/// an event loop turns each call into a message and returns at once; the
/// dialog methods are only called from the shell's own UI thread.
pub trait UiHost {
    /// Push an event to the shell; must not block.
    fn emit(&self, event: UiEvent);

    /// Ask a yes/no question.
    fn confirm(&self, request: ConfirmRequest) -> bool;

    /// An open-file dialog; `Ok(None)` when the user cancelled.
    fn open_file(&self, filters: &[FileFilter]) -> Result<Option<String>, String>;

    /// A save-file dialog; `Ok(None)` when the user cancelled.
    fn save_file(&self, filters: &[FileFilter], default_name: &str) -> Result<Option<String>, String>;

    /// Open a URL in the system browser.
    fn open_external(&self, url: &str) -> Result<(), String>;

    /// The theme preference (the system's by default).
    fn theme(&self) -> UiTheme {
        UiTheme::System
    }

    /// The UI language tag (Simplified Chinese by default).
    fn language(&self) -> String {
        String::from_str("zh-CN")
    }
}

/// The host of headless runs: events are dropped, questions answered no,
/// dialogs cancelled.
#[derive(Debug, Clone, Copy)]
pub struct NullUiHost;

impl Default for NullUiHost {
    fn default() -> (r: NullUiHost) {
        NullUiHost
    }
}

impl UiHost for NullUiHost {
    fn emit(&self, event: UiEvent) {
    }

    fn confirm(&self, request: ConfirmRequest) -> (r: bool)
        ensures
            !r,
    {
        false
    }

    fn open_file(&self, filters: &[FileFilter]) -> (r: Result<Option<String>, String>)
        ensures
            r == Ok::<Option<String>, String>(None),
    {
        Ok(None)
    }

    fn save_file(&self, filters: &[FileFilter], default_name: &str) -> (r: Result<Option<String>, String>)
        ensures
            r == Ok::<Option<String>, String>(None),
    {
        Ok(None)
    }

    fn open_external(&self, url: &str) -> (r: Result<(), String>)
        ensures
            r is Ok,
    {
        Ok(())
    }
}

} // verus!
