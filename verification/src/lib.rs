//! Verified core of the Runeweave scripting runtime: the language-neutral ECS
//! snapshot that scripts write to, and the rules that decide what reaches the
//! host world.

pub mod key;
pub mod order;
pub mod name_map;
pub mod value;
pub mod entity_map;
pub mod naming;
pub mod bridge;
pub mod laws;
pub mod world;
pub mod interop;
pub mod script_path;
pub mod convert;
pub mod host;
pub mod launch;
pub mod launcher;
