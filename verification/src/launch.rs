//! Choosing a script language and checking a game's `engineConfig.json`.

use vstd::prelude::*;
use crate::host::str_equal;
use crate::script_path::{path_components, path_is_absolute, parts_view, PartView};

verus! {

/// The scripting languages a game can be written in.
#[derive(Clone, Copy, Debug, PartialEq, Eq, Structural)]
pub enum ScriptLanguage {
    Js,
    TypeScript,
    Lua,
}

impl ScriptLanguage {
    /// The directory that holds this language's runtime build.
    pub open spec fn directory_spec(self) -> Seq<char> {
        match self {
            ScriptLanguage::Js => "js"@,
            ScriptLanguage::TypeScript => "typescript"@,
            ScriptLanguage::Lua => "lua"@,
        }
    }

    /// The directory that holds this language's runtime build.
    pub fn directory(self) -> (r: &'static str)
        ensures
            r@ == self.directory_spec(),
    {
        match self {
            ScriptLanguage::Js => "js",
            ScriptLanguage::TypeScript => "typescript",
            ScriptLanguage::Lua => "lua",
        }
    }
}

/// The entry script a language's game starts from.
pub fn default_script_path(language: ScriptLanguage) -> (r: &'static str)
    ensures
        r@ == match language {
            ScriptLanguage::Lua => "assets/shooter.lua"@,
            _ => "assets/shooter.js"@,
        },
{
    match language {
        ScriptLanguage::Lua => "assets/shooter.lua",
        _ => "assets/shooter.js",
    }
}

/// The engine that runs a language, as shown in the window title.
pub fn active_language(language: ScriptLanguage) -> (r: &'static str)
    ensures
        r@ == match language {
            ScriptLanguage::Js => "QuickJS"@,
            ScriptLanguage::TypeScript => "TypeScript / QuickJS"@,
            ScriptLanguage::Lua => "Lua 5.5"@,
        },
{
    match language {
        ScriptLanguage::Js => "QuickJS",
        ScriptLanguage::TypeScript => "TypeScript / QuickJS",
        ScriptLanguage::Lua => "Lua 5.5",
    }
}

/// Whether the entry's file extension suits the configured language: `lua`
/// for Lua, `js` or `mjs` for JavaScript and TypeScript.
pub open spec fn entry_matches_language_spec(language: Seq<char>, extension: Seq<char>) -> bool {
    ||| language == "lua"@ && extension == "lua"@
    ||| (language == "js"@ || language == "typescript"@) && (extension == "js"@ || extension == "mjs"@)
}

/// Checks the configured language against the entry's extension.
pub fn entry_matches_language(language: &str, extension: &str) -> (r: bool)
    ensures
        r == entry_matches_language_spec(language@, extension@),
{
    proof {
        reveal_strlit("lua");
        reveal_strlit("js");
        reveal_strlit("typescript");
        reveal_strlit("mjs");
    }
    (str_equal(language, "lua") && str_equal(extension, "lua"))
        || ((str_equal(language, "js") || str_equal(language, "typescript"))
            && (str_equal(extension, "js") || str_equal(extension, "mjs")))
}

/// Why an `engineConfig.json` is refused.
#[derive(Debug, PartialEq, Eq)]
pub enum ConfigError {
    /// `schemaVersion` is not 1.
    UnsupportedSchema(u32),
    /// `name` or `version` is blank.
    BlankNameOrVersion,
    /// `script.entry` is absolute or climbs with `..`.
    EntryOutsideAssets,
    /// `script.entry` names no file.
    EntryMissing,
}

/// Unicode `White_Space`, the property `str::trim` removes by.
pub open spec fn is_white_space(c: char) -> bool {
    let u = c as u32;
    ||| 0x9 <= u <= 0xd
    ||| u == 0x20 || u == 0x85 || u == 0xa0 || u == 0x1680
    ||| 0x2000 <= u <= 0x200a
    ||| u == 0x2028 || u == 0x2029 || u == 0x202f || u == 0x205f || u == 0x3000
}

/// `s` without its leading white space.
pub open spec fn trim_start(s: Seq<char>) -> Seq<char>
    decreases s.len(),
{
    if s.len() > 0 && is_white_space(s[0]) {
        trim_start(s.drop_first())
    } else {
        s
    }
}

/// `s` without its trailing white space.
pub open spec fn trim_end(s: Seq<char>) -> Seq<char>
    decreases s.len(),
{
    if s.len() > 0 && is_white_space(s.last()) {
        trim_end(s.drop_last())
    } else {
        s
    }
}

/// What `str::trim` gives for `s`: `s` without leading and trailing
/// Unicode white space.
pub open spec fn trimmed(s: Seq<char>) -> Seq<char> {
    trim_end(trim_start(s))
}

/// Calls `str::trim`, which removes leading and trailing `White_Space`.
#[verifier::external_body]
pub(crate) fn trim(s: &str) -> (r: &str)
    ensures
        r@ == trimmed(s@),
{
    s.trim()
}

/// The verdict on a configuration.
pub open spec fn engine_config_verdict(
    schema_version: u32,
    name: Seq<char>,
    version: Seq<char>,
    entry: Seq<char>,
    entry_is_file: bool,
) -> Result<(), ConfigError> {
    if schema_version != 1 {
        Err(ConfigError::UnsupportedSchema(schema_version))
    } else if trimmed(name).len() == 0 || trimmed(version).len() == 0 {
        Err(ConfigError::BlankNameOrVersion)
    } else if path_is_absolute(entry) || parts_view(path_components(entry)).contains(PartView::ParentDir) {
        Err(ConfigError::EntryOutsideAssets)
    } else if !entry_is_file {
        Err(ConfigError::EntryMissing)
    } else {
        Ok(())
    }
}

/// Checks an `engineConfig.json`: the schema version, a non-blank name and
/// version, and an entry script that is a relative path inside the assets
/// which names a file (`entry_is_file`, found by the caller).
pub fn validate_engine_config(
    schema_version: u32,
    name: &str,
    version: &str,
    entry: &str,
    entry_is_file: bool,
) -> (r: Result<(), ConfigError>)
    ensures
        r == engine_config_verdict(schema_version, name@, version@, entry@, entry_is_file),
{
    if schema_version != 1 {
        return Err(ConfigError::UnsupportedSchema(schema_version));
    }
    if trim(name).is_empty() || trim(version).is_empty() {
        return Err(ConfigError::BlankNameOrVersion);
    }
    if crate::script_path::is_absolute(entry) || crate::script_path::climbs(entry) {
        return Err(ConfigError::EntryOutsideAssets);
    }
    if !entry_is_file {
        return Err(ConfigError::EntryMissing);
    }
    Ok(())
}

} // verus!
