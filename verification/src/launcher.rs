//! The desktop launcher's decisions: what a click, a finished download or a
//! closed window leads to, which runtime library a configured game runs on,
//! and what the runtime's exit code means.

use vstd::prelude::*;
use crate::launch::{trim, trimmed, ScriptLanguage};

verus! {

/// What the launcher window has done so far.
#[derive(Clone, Copy, Debug, PartialEq, Eq, Structural)]
pub struct LauncherState {
    /// A download is running and the inputs are disabled.
    pub downloading: bool,
    /// The game starts once the window is gone.
    pub launch: bool,
}

/// What happens to the launcher window.
#[derive(Debug)]
pub enum LauncherEvent {
    /// The start button was pressed while the URL field held this text.
    StartPressed(String),
    /// The download finished; `None` when its result was already taken.
    DownloadFinished(Option<Result<(), String>>),
    /// The window was destroyed.
    Destroyed,
}

/// What the launcher window does in answer.
#[derive(Debug, PartialEq, Eq)]
pub enum LauncherAction {
    /// Ask the player to enter a URL.
    AskForUrl,
    /// Disable the inputs, then download and install the assets at this URL.
    Download(String),
    /// Close the window; the game starts afterwards.
    CloseWindow,
    /// Show this error and enable the inputs again.
    ReportFailure(String),
    /// End the message loop.
    Quit,
    /// Nothing.
    Nothing,
}

/// The launcher's state before any event.
pub fn launcher_start() -> (r: LauncherState)
    ensures
        r == (LauncherState { downloading: false, launch: false }),
{
    LauncherState { downloading: false, launch: false }
}

/// Decides what one event does: a blank URL asks for one, another starts
/// the download of the trimmed URL, a successful download closes the window
/// to start the game, a failed one is reported and the inputs come back, and
/// a destroyed window ends the loop.
pub fn launcher_step(state: LauncherState, event: LauncherEvent) -> (r: (LauncherState, LauncherAction))
    ensures
        match event {
            LauncherEvent::StartPressed(url) => if trimmed(url@).len() == 0 {
                r.0 == state && r.1 == LauncherAction::AskForUrl
            } else {
                &&& r.0 == (LauncherState { downloading: true, launch: state.launch })
                &&& r.1 is Download
                &&& r.1->Download_0@ == trimmed(url@)
            },
            LauncherEvent::DownloadFinished(Some(Ok(()))) =>
                r.0 == (LauncherState { downloading: false, launch: true }) && r.1 == LauncherAction::CloseWindow,
            LauncherEvent::DownloadFinished(Some(Err(error))) => {
                &&& r.0 == (LauncherState { downloading: false, launch: state.launch })
                &&& r.1 is ReportFailure
                &&& r.1->ReportFailure_0@ == error@
            },
            LauncherEvent::DownloadFinished(None) => r.0 == state && r.1 == LauncherAction::Nothing,
            LauncherEvent::Destroyed => r.0 == state && r.1 == LauncherAction::Quit,
        },
{
    match event {
        LauncherEvent::StartPressed(url) => {
            let url = trim(url.as_str());
            if url.is_empty() {
                (state, LauncherAction::AskForUrl)
            } else {
                (LauncherState { downloading: true, launch: state.launch }, LauncherAction::Download(url.to_owned()))
            }
        },
        LauncherEvent::DownloadFinished(Some(Ok(()))) => {
            (LauncherState { downloading: false, launch: true }, LauncherAction::CloseWindow)
        },
        LauncherEvent::DownloadFinished(Some(Err(error))) => {
            (LauncherState { downloading: false, launch: state.launch }, LauncherAction::ReportFailure(error))
        },
        LauncherEvent::DownloadFinished(None) => (state, LauncherAction::Nothing),
        LauncherEvent::Destroyed => (state, LauncherAction::Quit),
    }
}

/// Where a runtime library is looked up from.
#[derive(Clone, Copy, Debug, PartialEq, Eq, Structural)]
pub enum LibraryBase {
    /// The launcher's own directory (an installed build).
    ExecutableDir,
    /// The repository root (a development build).
    RepoRoot,
}

/// The runtime library a game runs on: its base and the path parts joined
/// onto it, in order.
#[derive(Debug)]
pub struct RuntimeLibrary {
    pub base: LibraryBase,
    pub parts: Vec<&'static str>,
}

/// The path parts of an installed runtime library.
pub open spec fn bundled_parts(language: ScriptLanguage) -> Seq<Seq<char>> {
    seq!["lib"@, language.directory_spec(), "bevy_runeweave.dll"@]
}

/// The path parts of a development runtime library.
pub open spec fn development_parts(language: ScriptLanguage) -> Seq<Seq<char>> {
    seq![
        "dist/runtimes/windows"@,
        language.directory_spec(),
        "x86_64-pc-windows-msvc/lib/bevy_runeweave.dll"@,
    ]
}

/// The views of a sequence of string slices.
pub open spec fn str_views(s: Seq<&'static str>) -> Seq<Seq<char>> {
    s.map_values(|x: &'static str| x@)
}

/// Picks the runtime library of a language: the installed one when it exists
/// (`bundled_exists`, found by the caller), else the development build.
pub fn runtime_library(language: ScriptLanguage, bundled_exists: bool) -> (r: RuntimeLibrary)
    ensures
        bundled_exists ==> r.base == LibraryBase::ExecutableDir && str_views(r.parts@) == bundled_parts(language),
        !bundled_exists ==> r.base == LibraryBase::RepoRoot && str_views(r.parts@) == development_parts(language),
{
    let mut parts: Vec<&'static str> = Vec::new();
    if bundled_exists {
        parts.push("lib");
        parts.push(language.directory());
        parts.push("bevy_runeweave.dll");
        assert(str_views(parts@) =~= bundled_parts(language));
        RuntimeLibrary { base: LibraryBase::ExecutableDir, parts }
    } else {
        parts.push("dist/runtimes/windows");
        parts.push(language.directory());
        parts.push("x86_64-pc-windows-msvc/lib/bevy_runeweave.dll");
        assert(str_views(parts@) =~= development_parts(language));
        RuntimeLibrary { base: LibraryBase::RepoRoot, parts }
    }
}

/// What the runtime's exit code means: 0 is a clean exit, anything else is
/// reported with the code.
pub fn runtime_exit(code: i32) -> (r: Result<(), i32>)
    ensures
        r == (if code == 0 { Ok::<(), i32>(()) } else { Err::<(), i32>(code) }),
{
    if code == 0 {
        Ok(())
    } else {
        Err(code)
    }
}

} // verus!
