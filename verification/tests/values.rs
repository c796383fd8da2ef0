use bevy_runeweave::convert::{
    ecs_to_js_input, finite_bits, js_bundle, js_to_ecs, lua_to_ecs, value_fits_depth, ConversionError, JsInput, LuaInput,
};
use bevy_runeweave::host::{
    component_number, component_string, resource_number, sprite_asset, sprite_kind, sprite_needs_update,
    SpriteKind,
};
use bevy_runeweave::key::valid_key;
use bevy_runeweave::name_map::NameMap;
use bevy_runeweave::order::{compare_keys, KeyOrder};
use bevy_runeweave::value::EcsValue;
use bevy_runeweave::world::ScriptComponents;

fn lua_int(value: i64) -> LuaInput {
    LuaInput::Integer { value, number: (value as f64).to_bits() }
}

fn lua_str(s: &str) -> LuaInput {
    LuaInput::String(s.to_owned())
}

#[test]
fn lua_sequences_become_arrays() {
    let table = LuaInput::Table(vec![
        (lua_int(2), lua_str("b")),
        (lua_int(1), lua_str("a")),
    ]);
    match lua_to_ecs(&table, 0).unwrap() {
        EcsValue::Array(items) => {
            assert_eq!(items, vec![EcsValue::String("a".to_owned()), EcsValue::String("b".to_owned())]);
        }
        other => panic!("expected an array, got {other:?}"),
    }
}

#[test]
fn lua_tables_with_gaps_or_names_become_objects() {
    let gap = LuaInput::Table(vec![(lua_int(1), lua_str("a")), (lua_int(3), lua_str("c"))]);
    assert_eq!(lua_to_ecs(&gap, 0), Err(ConversionError::NonStringKey));
    let named = LuaInput::Table(vec![(lua_str("x"), lua_int(4)), (lua_str("y"), LuaInput::Boolean(true))]);
    let value = lua_to_ecs(&named, 0).unwrap();
    assert_eq!(value.field("x").and_then(EcsValue::as_number).map(f64::from_bits), Some(4.0));
    assert_eq!(value.field("y"), Some(&EcsValue::Bool(true)));
    let empty = LuaInput::Table(vec![]);
    assert!(matches!(lua_to_ecs(&empty, 0), Ok(EcsValue::Object(_))));
}

#[test]
fn lua_rejects_infinite_numbers_and_functions() {
    assert_eq!(lua_to_ecs(&LuaInput::Number(f64::INFINITY.to_bits()), 0), Err(ConversionError::NotFinite));
    assert_eq!(lua_to_ecs(&LuaInput::Number(f64::NAN.to_bits()), 0), Err(ConversionError::NotFinite));
    assert_eq!(
        lua_to_ecs(&LuaInput::Other("function".to_owned()), 0),
        Err(ConversionError::Unsupported("function".to_owned()))
    );
    assert_eq!(lua_to_ecs(&LuaInput::Nil, 0), Ok(EcsValue::Null));
}

#[test]
fn nesting_deeper_than_32_levels_is_refused() {
    let mut deep = LuaInput::Boolean(true);
    for _ in 0..32 {
        deep = LuaInput::Table(vec![(lua_int(1), deep)]);
    }
    assert!(lua_to_ecs(&deep, 0).is_ok());
    let deeper = LuaInput::Table(vec![(lua_int(1), deep)]);
    assert_eq!(lua_to_ecs(&deeper, 0), Err(ConversionError::TooDeep));

    let mut js = JsInput::Null;
    for _ in 0..32 {
        js = JsInput::Array(vec![js]);
    }
    assert!(js_to_ecs(&js, 0).is_ok());
    let js_deeper = JsInput::Array(vec![js]);
    assert_eq!(js_to_ecs(&js_deeper, 0), Err(ConversionError::TooDeep));
}

#[test]
fn javascript_values_convert() {
    let object = JsInput::Object(vec![
        ("kind".to_owned(), JsInput::String("player".to_owned())),
        ("x".to_owned(), JsInput::Number(1.5f64.to_bits())),
        ("kind".to_owned(), JsInput::String("enemy".to_owned())),
    ]);
    let value = js_to_ecs(&object, 0).unwrap();
    assert_eq!(value.field("kind").and_then(EcsValue::as_str), Some("enemy"));
    assert_eq!(value.field("x").and_then(EcsValue::as_number).map(f64::from_bits), Some(1.5));
    assert_eq!(js_to_ecs(&JsInput::Number(f64::NEG_INFINITY.to_bits()), 0), Err(ConversionError::NotFinite));
    assert_eq!(js_bundle(&JsInput::Bool(true)), Err(ConversionError::NotAnObject));
    assert!(js_bundle(&object).is_ok());
}

#[test]
fn finiteness_is_read_from_the_exponent() {
    assert!(finite_bits(0.0f64.to_bits()));
    assert!(finite_bits(f64::MAX.to_bits()));
    assert!(!finite_bits(f64::INFINITY.to_bits()));
}

#[test]
fn key_rules() {
    assert!(valid_key("player"));
    assert!(!valid_key(""));
    assert!(!valid_key("a\u{85}b"));
    assert!(valid_key("héros"));
    assert_eq!(compare_keys("a", "b"), KeyOrder::Less);
    assert_eq!(compare_keys("ab", "a"), KeyOrder::Greater);
    assert_eq!(compare_keys("é", "é"), KeyOrder::Equal);
    assert_eq!(compare_keys("Z", "a"), KeyOrder::Less);
}

#[test]
fn name_maps_stay_sorted() {
    let mut m = NameMap::new();
    m.insert("b".to_owned(), 2);
    m.insert("a".to_owned(), 1);
    m.insert("b".to_owned(), 3);
    assert_eq!(m.len(), 2);
    assert_eq!(m.key_at(0), "a");
    assert_eq!(*m.value_at(1), 3);
    assert_eq!(m.remove("a"), Some(1));
    assert_eq!(m.remove("a"), None);
    assert_eq!(m.get("b"), Some(&3));
}

#[test]
fn values_duplicate_with_the_same_content() {
    let mut fields = NameMap::new();
    fields.insert("list".to_owned(), EcsValue::Array(vec![EcsValue::Null, EcsValue::Bool(false)]));
    let value = EcsValue::Object(fields);
    assert_eq!(value.duplicate(), value);
}

#[test]
fn host_reads_sprites_and_positions() {
    assert_eq!(sprite_kind("enemy"), SpriteKind::Enemy);
    assert_eq!(sprite_kind("ufo"), SpriteKind::Unknown);
    assert_eq!(sprite_asset(SpriteKind::Player), "sprites/player.png");
    assert_eq!(sprite_asset(SpriteKind::Unknown), "sprites/bullet.png");
    assert!(sprite_needs_update(None, "enemy"));
    assert!(sprite_needs_update(Some("player"), "enemy"));
    assert!(!sprite_needs_update(Some("enemy"), "enemy"));

    let mut transform = NameMap::new();
    transform.insert("x".to_owned(), EcsValue::Number(3.0f64.to_bits()));
    let mut sprite = NameMap::new();
    sprite.insert("kind".to_owned(), EcsValue::String("player".to_owned()));
    let mut components = NameMap::new();
    components.insert("transform".to_owned(), EcsValue::Object(transform));
    components.insert("sprite".to_owned(), EcsValue::Object(sprite));
    let components = ScriptComponents::new(components);
    assert_eq!(component_number(&components, "transform", "x").map(f64::from_bits), Some(3.0));
    assert_eq!(component_number(&components, "transform", "y"), None);
    assert_eq!(component_string(&components, "sprite", "kind"), Some("player"));
    assert_eq!(components.iter().len(), 2);

    let mut state = NameMap::new();
    state.insert("score".to_owned(), EcsValue::Number(42.0f64.to_bits()));
    assert_eq!(resource_number(&EcsValue::Object(state), "score").map(f64::from_bits), Some(42.0));
}

fn nested_array(levels: usize) -> EcsValue {
    let mut value = EcsValue::Null;
    for _ in 0..levels {
        value = EcsValue::Array(vec![value]);
    }
    value
}

#[test]
fn values_handed_to_scripts_respect_the_nesting_limit() {
    assert!(value_fits_depth(&EcsValue::Bool(true), 0));
    assert!(value_fits_depth(&nested_array(32), 0));
    assert!(!value_fits_depth(&nested_array(33), 0));
    assert!(!value_fits_depth(&EcsValue::Null, 33));
    let mut fields = NameMap::new();
    fields.insert("inner".to_owned(), nested_array(31));
    assert!(value_fits_depth(&EcsValue::Object(fields), 0));
    let mut deep = NameMap::new();
    deep.insert("inner".to_owned(), nested_array(32));
    assert!(!value_fits_depth(&EcsValue::Object(deep), 0));
}

fn nested_lua_table(levels: usize) -> LuaInput {
    let mut value = lua_str("leaf");
    for _ in 0..levels {
        value = LuaInput::Table(vec![(lua_int(1), value)]);
    }
    value
}

fn nested_js_array(levels: usize) -> JsInput {
    let mut value = JsInput::Number(1.5f64.to_bits());
    for _ in 0..levels {
        value = JsInput::Array(vec![value]);
    }
    value
}

#[test]
fn values_from_scripts_can_be_handed_back() {
    let from_lua = lua_to_ecs(&nested_lua_table(32), 0).unwrap();
    assert!(value_fits_depth(&from_lua, 0));
    assert_eq!(lua_to_ecs(&nested_lua_table(33), 0), Err(ConversionError::TooDeep));
    let from_js = js_to_ecs(&nested_js_array(32), 0).unwrap();
    assert!(value_fits_depth(&from_js, 0));
    assert_eq!(js_to_ecs(&nested_js_array(33), 0), Err(ConversionError::TooDeep));
}

#[test]
fn values_handed_to_javascript_read_back_unchanged() {
    let mut inner = NameMap::new();
    inner.insert("x".to_owned(), EcsValue::Number(1.5f64.to_bits()));
    inner.insert("kind".to_owned(), EcsValue::String("player".to_owned()));
    let mut fields = NameMap::new();
    fields.insert("transform".to_owned(), EcsValue::Object(inner));
    fields.insert("tags".to_owned(), EcsValue::Array(vec![EcsValue::Bool(true), EcsValue::Null]));
    let value = EcsValue::Object(fields);
    let expected = value.duplicate();
    assert_eq!(js_to_ecs(&ecs_to_js_input(&value), 0), Ok(expected));
    assert!(matches!(ecs_to_js_input(&EcsValue::Number(2.0f64.to_bits())), JsInput::Number(bits) if bits == 2.0f64.to_bits()));
}

#[test]
fn values_compare_like_the_numbers_they_hold() {
    assert_eq!(EcsValue::Number(0.0f64.to_bits()), EcsValue::Number((-0.0f64).to_bits()));
    assert_ne!(EcsValue::Number(f64::NAN.to_bits()), EcsValue::Number(f64::NAN.to_bits()));
    assert_ne!(EcsValue::Number(1.0f64.to_bits()), EcsValue::Number(2.0f64.to_bits()));
    let mut a = NameMap::new();
    a.insert("x".to_owned(), EcsValue::Array(vec![EcsValue::Number((-0.0f64).to_bits())]));
    let mut b = NameMap::new();
    b.insert("x".to_owned(), EcsValue::Array(vec![EcsValue::Number(0.0f64.to_bits())]));
    assert_eq!(EcsValue::Object(a), EcsValue::Object(b));
    let mut c = NameMap::new();
    c.insert("y".to_owned(), EcsValue::Null);
    assert_ne!(EcsValue::Object(c), EcsValue::Object(NameMap::new()));
    assert_ne!(EcsValue::String("a".to_owned()), EcsValue::Bool(true));
}
