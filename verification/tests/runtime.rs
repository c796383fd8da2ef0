use std::path::PathBuf;

use bevy_runeweave::launch::{
    active_language, default_script_path, entry_matches_language, validate_engine_config, ConfigError,
    ScriptLanguage,
};
use bevy_runeweave::launcher::{
    launcher_start, launcher_step, runtime_exit, runtime_library, LauncherAction, LauncherEvent, LibraryBase,
};
use bevy_runeweave::script_path::{normalize_parts, normalize_script_path, plan_reload, resolve_app_paths, source_has_changed, PathPart, ReloadStep};

fn to_path(parts: &[PathPart]) -> PathBuf {
    let mut path = PathBuf::new();
    for part in parts {
        match part {
            PathPart::Prefix(_, text) => path.push(text),
            PathPart::RootDir => path.push("/"),
            PathPart::CurDir => path.push("."),
            PathPart::ParentDir => path.push(".."),
            PathPart::Normal(n) => path.push(n),
        }
    }
    path
}

#[test]
fn normalizes_paths_under_assets() {
    assert_eq!(
        to_path(&normalize_script_path("assets", "assets/shooter.js").unwrap()),
        PathBuf::from("shooter.js")
    );
    assert_eq!(
        to_path(&normalize_script_path("assets", "shooter.js").unwrap()),
        PathBuf::from("shooter.js")
    );
}

#[test]
fn rejects_scripts_outside_asset_root() {
    assert!(normalize_script_path("assets", "../shooter.js").is_err());
    assert!(normalize_script_path("assets", "/tmp/shooter.js").is_err());
}

fn nanos(seconds: i128) -> i128 {
    seconds * 1_000_000_000
}

#[test]
fn detects_source_timestamp_changes() {
    let first = nanos(1);
    let second = first + nanos(1);

    assert!(!source_has_changed(Some(first), Some(first)));
    assert!(source_has_changed(Some(first), Some(second)));
    assert!(source_has_changed(None, Some(first)));
    assert!(!source_has_changed(Some(first), None));
}

#[test]
fn absolute_scripts_inside_the_root_are_accepted() {
    assert_eq!(
        to_path(&normalize_script_path("/srv/game/assets", "/srv/game/assets/scripts/main.lua").unwrap()),
        PathBuf::from("scripts/main.lua")
    );
    assert_eq!(
        normalize_script_path("/srv/game/assets", "/srv/other/main.lua"),
        Err("script must be inside /srv/game/assets".to_owned())
    );
}

#[test]
fn the_asset_root_itself_is_no_script() {
    assert_eq!(
        normalize_script_path("assets", "assets"),
        Err("script path must point to a file inside the asset directory".to_owned())
    );
    assert!(normalize_script_path("assets", "assets/../x.js").is_err());
}

#[test]
fn language_choices() {
    assert_eq!(default_script_path(ScriptLanguage::Js), "assets/shooter.js");
    assert_eq!(default_script_path(ScriptLanguage::TypeScript), "assets/shooter.js");
    assert_eq!(default_script_path(ScriptLanguage::Lua), "assets/shooter.lua");
    assert_eq!(active_language(ScriptLanguage::TypeScript), "TypeScript / QuickJS");
    assert_eq!(active_language(ScriptLanguage::Lua), "Lua 5.5");
    assert_eq!(ScriptLanguage::TypeScript.directory(), "typescript");
    assert!(entry_matches_language("lua", "lua"));
    assert!(entry_matches_language("typescript", "mjs"));
    assert!(!entry_matches_language("lua", "js"));
    assert!(!entry_matches_language("python", "py"));
}

#[test]
fn engine_config_checks() {
    assert_eq!(validate_engine_config(1, "my-game", "0.1.0", "main.js", true), Ok(()));
    assert_eq!(
        validate_engine_config(2, "my-game", "0.1.0", "main.js", true),
        Err(ConfigError::UnsupportedSchema(2))
    );
    assert_eq!(
        validate_engine_config(1, "  ", "0.1.0", "main.js", true),
        Err(ConfigError::BlankNameOrVersion)
    );
    assert_eq!(
        validate_engine_config(1, "g", "0.1.0", "../main.js", true),
        Err(ConfigError::EntryOutsideAssets)
    );
    assert_eq!(
        validate_engine_config(1, "g", "0.1.0", "/main.js", true),
        Err(ConfigError::EntryOutsideAssets)
    );
    assert_eq!(
        validate_engine_config(1, "g", "0.1.0", "main.js", false),
        Err(ConfigError::EntryMissing)
    );
}

#[test]
fn reload_watcher_records_changes_and_honours_requests() {
    assert_eq!(plan_reload(Some(1), Some(2), false), ReloadStep { record: Some(Some(2)), reload: true });
    assert_eq!(plan_reload(Some(2), Some(2), false), ReloadStep { record: None, reload: false });
    assert_eq!(plan_reload(Some(2), Some(2), true), ReloadStep { record: None, reload: true });
    assert_eq!(plan_reload(Some(2), None, false), ReloadStep { record: None, reload: false });
    assert_eq!(plan_reload(None, Some(5), false), ReloadStep { record: Some(Some(5)), reload: true });
}

#[test]
fn launcher_downloads_then_launches() {
    let state = launcher_start();
    let (state, action) = launcher_step(state, LauncherEvent::StartPressed("   ".to_owned()));
    assert_eq!(action, LauncherAction::AskForUrl);
    assert!(!state.downloading);
    let (state, action) = launcher_step(state, LauncherEvent::StartPressed("  https://example.com/game.zip ".to_owned()));
    assert_eq!(action, LauncherAction::Download("https://example.com/game.zip".to_owned()));
    assert!(state.downloading);
    let (state, action) = launcher_step(state, LauncherEvent::DownloadFinished(Some(Err("下载失败".to_owned()))));
    assert_eq!(action, LauncherAction::ReportFailure("下载失败".to_owned()));
    assert!(!state.downloading && !state.launch);
    let (state, action) = launcher_step(state, LauncherEvent::DownloadFinished(None));
    assert_eq!(action, LauncherAction::Nothing);
    let (state, action) = launcher_step(state, LauncherEvent::DownloadFinished(Some(Ok(()))));
    assert_eq!(action, LauncherAction::CloseWindow);
    assert!(state.launch);
    let (state, action) = launcher_step(state, LauncherEvent::Destroyed);
    assert_eq!(action, LauncherAction::Quit);
    assert!(state.launch);
}

#[test]
fn runtime_library_prefers_the_installed_build() {
    let installed = runtime_library(ScriptLanguage::Lua, true);
    assert_eq!(installed.base, LibraryBase::ExecutableDir);
    assert_eq!(installed.parts, vec!["lib", "lua", "bevy_runeweave.dll"]);
    let development = runtime_library(ScriptLanguage::TypeScript, false);
    assert_eq!(development.base, LibraryBase::RepoRoot);
    assert_eq!(
        development.parts,
        vec!["dist/runtimes/windows", "typescript", "x86_64-pc-windows-msvc/lib/bevy_runeweave.dll"]
    );
    assert_eq!(runtime_exit(0), Ok(()));
    assert_eq!(runtime_exit(3), Err(3));
}

#[test]
fn a_bad_script_path_is_reported_before_a_missing_asset_directory() {
    assert_eq!(
        resolve_app_paths("assets", "../shooter.js", false),
        Err("script path must point to a file inside the asset directory".to_owned())
    );
    assert_eq!(
        resolve_app_paths("assets", "assets/shooter.js", false),
        Err("asset directory does not exist: assets".to_owned())
    );
    let parts = resolve_app_paths("assets", "assets/shooter.js", true).unwrap();
    assert_eq!(to_path(&parts), PathBuf::from("shooter.js"));
}

#[test]
fn drive_prefixes_compare_as_parsed() {
    let drive = |text: &str| PathPart::Prefix("Disk(67)".to_owned(), text.to_owned());
    let script = vec![drive("c:"), PathPart::RootDir, PathPart::Normal("assets".to_owned()), PathPart::Normal("x.js".to_owned())];
    let root = vec![drive("C:"), PathPart::RootDir, PathPart::Normal("assets".to_owned())];
    let assets = vec![PathPart::Normal("assets".to_owned())];
    assert_eq!(
        normalize_parts(script, true, &root, &assets, "C:\\assets"),
        Ok(vec![PathPart::Normal("x.js".to_owned())])
    );
    let elsewhere = vec![PathPart::Prefix("Disk(68)".to_owned(), "d:".to_owned()), PathPart::RootDir, PathPart::Normal("x.js".to_owned())];
    assert_eq!(
        normalize_parts(elsewhere, true, &root, &assets, "C:\\assets"),
        Err("script must be inside C:\\assets".to_owned())
    );
}
