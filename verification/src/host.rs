//! What the example host reads from script data: sprite kinds, positions,
//! and the game state shown in the HUD.

use vstd::prelude::*;
use crate::value::EcsValue;
use crate::world::ScriptComponents;

verus! {

/// The sprites the host knows how to draw.
#[derive(Clone, Copy, Debug, PartialEq, Eq, Structural)]
pub enum SpriteKind {
    Player,
    Enemy,
    Bullet,
    /// Any other kind, drawn as a small bullet.
    Unknown,
}

/// The sprite drawn for a `kind` string.
pub open spec fn sprite_kind_spec(kind: Seq<char>) -> SpriteKind {
    if kind == "player"@ {
        SpriteKind::Player
    } else if kind == "enemy"@ {
        SpriteKind::Enemy
    } else if kind == "bullet"@ {
        SpriteKind::Bullet
    } else {
        SpriteKind::Unknown
    }
}

/// Classifies a sprite `kind` string.
pub fn sprite_kind(kind: &str) -> (r: SpriteKind)
    ensures
        r == sprite_kind_spec(kind@),
{
    proof {
        reveal_strlit("player");
        reveal_strlit("enemy");
        reveal_strlit("bullet");
    }
    if str_equal(kind, "player") {
        SpriteKind::Player
    } else if str_equal(kind, "enemy") {
        SpriteKind::Enemy
    } else if str_equal(kind, "bullet") {
        SpriteKind::Bullet
    } else {
        SpriteKind::Unknown
    }
}

/// Whether two strings are equal.
pub fn str_equal(a: &str, b: &str) -> (r: bool)
    ensures
        r == (a@ == b@),
{
    match crate::order::compare_keys(a, b) {
        crate::order::KeyOrder::Equal => true,
        _ => false,
    }
}

/// The image of a sprite kind, relative to the asset root.
pub open spec fn sprite_asset_spec(kind: SpriteKind) -> Seq<char> {
    match kind {
        SpriteKind::Player => "sprites/player.png"@,
        SpriteKind::Enemy => "sprites/enemy.png"@,
        _ => "sprites/bullet.png"@,
    }
}

/// The image of a sprite kind, relative to the asset root.
pub fn sprite_asset(kind: SpriteKind) -> (r: &'static str)
    ensures
        r@ == match kind {
            SpriteKind::Player => "sprites/player.png"@,
            SpriteKind::Enemy => "sprites/enemy.png"@,
            _ => "sprites/bullet.png"@,
        },
        r@ == sprite_asset_spec(kind),
{
    match kind {
        SpriteKind::Player => "sprites/player.png",
        SpriteKind::Enemy => "sprites/enemy.png",
        _ => "sprites/bullet.png",
    }
}

/// Whether the drawn sprite must change: a kind is given and differs from the
/// current one (or there is none).
pub fn sprite_needs_update(current: Option<&str>, kind: &str) -> (r: bool)
    ensures
        r == match current {
            Some(c) => c@ != kind@,
            None => true,
        },
{
    match current {
        Some(c) => !str_equal(c, kind),
        None => true,
    }
}

/// The number in field `field` of component `component`, as `f64` bits.
pub fn component_number(components: &ScriptComponents, component: &str, field: &str) -> (r: Option<u64>)
    ensures
        r == match components.get_spec(component@) {
            Some(v) => match v.field_spec(field@) {
                Some(EcsValue::Number(n)) => Some(n),
                _ => None::<u64>,
            },
            None => None::<u64>,
        },
{
    match components.get(component) {
        Some(value) => match value.field(field) {
            Some(f) => f.as_number(),
            None => None,
        },
        None => None,
    }
}

/// The string in field `field` of component `component`.
pub fn component_string<'a>(components: &'a ScriptComponents, component: &str, field: &str) -> (r: Option<&'a str>)
    ensures
        match components.get_spec(component@) {
            Some(v) => match v.field_spec(field@) {
                Some(EcsValue::String(s)) => r is Some && r.unwrap()@ == s@,
                _ => r is None,
            },
            None => r is None,
        },
{
    match components.get(component) {
        Some(value) => match value.field(field) {
            Some(f) => f.as_str(),
            None => None,
        },
        None => None,
    }
}

/// The number in field `field` of a resource, as `f64` bits.
pub fn resource_number(resource: &EcsValue, field: &str) -> (r: Option<u64>)
    ensures
        r == match resource.field_spec(field@) {
            Some(EcsValue::Number(n)) => Some(n),
            _ => None::<u64>,
        },
{
    match resource.field(field) {
        Some(f) => f.as_number(),
        None => None,
    }
}

} // verus!
