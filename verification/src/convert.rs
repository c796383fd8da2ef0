//! Conversion of values handed over by a script engine into [`EcsValue`]s:
//! the rules on nesting depth, finite numbers, arrays and object keys; and
//! the check a value passes before it is handed back to a script.

use vstd::prelude::*;
use crate::name_map::NameMap;
use crate::value::{value_model, EcsValue, ValueModel};

verus! {

/// The deepest nesting of arrays and objects a script value may have.
pub const MAX_VALUE_DEPTH: usize = 32;

/// Why a script value cannot become an [`EcsValue`].
#[derive(Debug, PartialEq, Eq)]
pub enum ConversionError {
    /// Arrays and objects nest deeper than `MAX_VALUE_DEPTH`.
    TooDeep,
    /// A number is infinite or NaN.
    NotFinite,
    /// A value of a type that has no `EcsValue` form, by its type name.
    Unsupported(String),
    /// A Lua table that is not an array has a key that is not a string.
    NonStringKey,
    /// A component bundle that is not an object.
    NotAnObject,
}

/// The content of an error.
pub enum ErrorView {
    TooDeep,
    NotFinite,
    Unsupported(Seq<char>),
    NonStringKey,
    NotAnObject,
}

/// The content of an error.
pub open spec fn error_view(e: ConversionError) -> ErrorView {
    match e {
        ConversionError::TooDeep => ErrorView::TooDeep,
        ConversionError::NotFinite => ErrorView::NotFinite,
        ConversionError::Unsupported(s) => ErrorView::Unsupported(s@),
        ConversionError::NonStringKey => ErrorView::NonStringKey,
        ConversionError::NotAnObject => ErrorView::NotAnObject,
    }
}

/// The content of a conversion result.
pub open spec fn result_view(r: Result<EcsValue, ConversionError>) -> Result<ValueModel, ErrorView> {
    match r {
        Ok(v) => Ok(value_model(v)),
        Err(e) => Err(error_view(e)),
    }
}

/// Whether an `f64` bit pattern is finite: its exponent is not all ones.
pub open spec fn is_finite_bits(bits: u64) -> bool {
    (bits >> 52u64) & 0x7ffu64 != 0x7ffu64
}

/// Whether an `f64` bit pattern is finite.
pub fn finite_bits(bits: u64) -> (r: bool)
    ensures
        r == is_finite_bits(bits),
{
    (bits >> 52u64) & 0x7ffu64 != 0x7ffu64
}

/// A Lua value, as plain values.
pub enum LuaInput {
    Nil,
    Boolean(bool),
    /// An integer, with the bit pattern of its nearest `f64`.
    Integer { value: i64, number: u64 },
    /// A float, by its bit pattern.
    Number(u64),
    String(String),
    /// A table, by its key/value pairs in the order Lua walks them.
    Table(Vec<(LuaInput, LuaInput)>),
    /// Any other value, by its type name.
    Other(String),
}

/// The array index of a table key: a positive integer that fits in `usize`.
pub open spec fn array_index(k: LuaInput) -> Option<nat> {
    match k {
        LuaInput::Integer { value, number } => if 0 < value <= usize::MAX { Some(value as nat) } else { None },
        _ => None,
    }
}

/// The array slot of an integer key: the key minus one.
pub open spec fn slot_of(k: LuaInput) -> int {
    match k {
        LuaInput::Integer { value, number } => value - 1,
        _ => -1,
    }
}

/// The largest array index among the keys of `entries`, or 0.
pub open spec fn max_array_index(entries: Seq<(LuaInput, LuaInput)>) -> nat
    decreases entries.len(),
{
    if entries.len() == 0 {
        0
    } else {
        let rest = max_array_index(entries.drop_last());
        match array_index(entries.last().0) {
            Some(i) => if i > rest { i } else { rest },
            None => rest,
        }
    }
}

/// Whether a table is an array: not empty, and its keys are exactly the
/// integers `1..=n` where `n` is its number of entries.
pub open spec fn is_lua_array(entries: Seq<(LuaInput, LuaInput)>) -> bool {
    let n = max_array_index(entries);
    &&& entries.len() > 0
    &&& entries.len() == n
    &&& forall|i: int| 0 <= i < entries.len() ==> match (#[trigger] entries[i]).0 {
            LuaInput::Integer { value, number } => 0 < value && value <= n,
            _ => false,
        }
}

/// The content a Lua value converts to, at nesting `depth`.
pub open spec fn lua_value(v: LuaInput, depth: nat) -> Result<ValueModel, ErrorView>
    decreases v, 0nat,
{
    if depth > MAX_VALUE_DEPTH {
        Err(ErrorView::TooDeep)
    } else {
        match v {
            LuaInput::Nil => Ok(ValueModel::Null),
            LuaInput::Boolean(b) => Ok(ValueModel::Bool(b)),
            LuaInput::Integer { value, number } => Ok(ValueModel::Number(number)),
            LuaInput::Number(bits) => if is_finite_bits(bits) {
                Ok(ValueModel::Number(bits))
            } else {
                Err(ErrorView::NotFinite)
            },
            LuaInput::String(s) => Ok(ValueModel::Str(s@)),
            LuaInput::Table(entries) => if is_lua_array(entries@) {
                match lua_array(entries@, depth + 1, entries@.len()) {
                    Ok(items) => Ok(ValueModel::Array(items)),
                    Err(e) => Err(e),
                }
            } else {
                match lua_object(entries@, depth + 1) {
                    Ok(fields) => Ok(ValueModel::Object(fields)),
                    Err(e) => Err(e),
                }
            },
            LuaInput::Other(name) => Err(ErrorView::Unsupported(name@)),
        }
    }
}

/// The items of an array table: `n` slots, each set by the entry with that
/// index, entries taken in order; the first failing entry decides the error.
pub open spec fn lua_array(entries: Seq<(LuaInput, LuaInput)>, depth: nat, n: nat) -> Result<Seq<ValueModel>, ErrorView>
    decreases entries, 1nat,
{
    if entries.len() == 0 {
        Ok(Seq::new(n, |i: int| ValueModel::Null))
    } else {
        proof {
            assert(decreases_to!(entries => entries.drop_last()));
        }
        match lua_array(entries.drop_last(), depth, n) {
            Err(e) => Err(e),
            Ok(items) => {
                proof {
                    assert(decreases_to!(entries => entries[entries.len() - 1]));
                }
                match lua_value(entries.last().1, depth) {
                    Err(e) => Err(e),
                    Ok(v) => Ok(items.update(slot_of(entries.last().0), v)),
                }
            },
        }
    }
}

/// The fields of an object table, entries taken in order; a later entry with
/// the same key wins; the first failing entry decides the error.
pub open spec fn lua_object(entries: Seq<(LuaInput, LuaInput)>, depth: nat) -> Result<Map<Seq<char>, ValueModel>, ErrorView>
    decreases entries, 1nat,
{
    if entries.len() == 0 {
        Ok(Map::empty())
    } else {
        proof {
            assert(decreases_to!(entries => entries.drop_last()));
        }
        match lua_object(entries.drop_last(), depth) {
            Err(e) => Err(e),
            Ok(fields) => match entries.last().0 {
                LuaInput::String(k) => {
                    proof {
                        assert(decreases_to!(entries => entries[entries.len() - 1]));
                    }
                    match lua_value(entries.last().1, depth) {
                        Err(e) => Err(e),
                        Ok(v) => Ok(fields.insert(k@, v)),
                    }
                },
                _ => Err(ErrorView::NonStringKey),
            },
        }
    }
}

} // verus!

verus! {

/// The contents of a sequence of values.
pub open spec fn values_view(s: Seq<EcsValue>) -> Seq<ValueModel> {
    s.map_values(|v: EcsValue| value_model(v))
}

proof fn lemma_array_prefix(entries: Seq<(LuaInput, LuaInput)>, depth: nat, n: nat, i: int)
    requires
        0 <= i < entries.len(),
    ensures
        lua_array(entries.take(i + 1), depth, n) == match lua_array(entries.take(i), depth, n) {
            Err(e) => Err(e),
            Ok(items) => match lua_value(entries[i].1, depth) {
                Err(e) => Err(e),
                Ok(v) => Ok(items.update(slot_of(entries[i].0), v)),
            },
        },
{
    assert(entries.take(i + 1).drop_last() =~= entries.take(i));
}

proof fn lemma_array_err_persists(entries: Seq<(LuaInput, LuaInput)>, depth: nat, n: nat, i: int, e: ErrorView)
    requires
        0 <= i <= entries.len(),
        lua_array(entries.take(i), depth, n) == Err::<Seq<ValueModel>, ErrorView>(e),
    ensures
        lua_array(entries, depth, n) == Err::<Seq<ValueModel>, ErrorView>(e),
    decreases entries.len() - i,
{
    if i == entries.len() {
        assert(entries.take(i) =~= entries);
    } else {
        lemma_array_prefix(entries, depth, n, i);
        lemma_array_err_persists(entries, depth, n, i + 1, e);
    }
}

proof fn lemma_object_prefix(entries: Seq<(LuaInput, LuaInput)>, depth: nat, i: int)
    requires
        0 <= i < entries.len(),
    ensures
        lua_object(entries.take(i + 1), depth) == match lua_object(entries.take(i), depth) {
            Err(e) => Err(e),
            Ok(fields) => match entries[i].0 {
                LuaInput::String(k) => match lua_value(entries[i].1, depth) {
                    Err(e) => Err(e),
                    Ok(v) => Ok(fields.insert(k@, v)),
                },
                _ => Err(ErrorView::NonStringKey),
            },
        },
{
    assert(entries.take(i + 1).drop_last() =~= entries.take(i));
}

proof fn lemma_object_err_persists(entries: Seq<(LuaInput, LuaInput)>, depth: nat, i: int, e: ErrorView)
    requires
        0 <= i <= entries.len(),
        lua_object(entries.take(i), depth) == Err::<Map<Seq<char>, ValueModel>, ErrorView>(e),
    ensures
        lua_object(entries, depth) == Err::<Map<Seq<char>, ValueModel>, ErrorView>(e),
    decreases entries.len() - i,
{
    if i == entries.len() {
        assert(entries.take(i) =~= entries);
    } else {
        lemma_object_prefix(entries, depth, i);
        lemma_object_err_persists(entries, depth, i + 1, e);
    }
}

/// Whether every key is an integer in `1..=n`.
fn keys_within(entries: &Vec<(LuaInput, LuaInput)>, n: usize) -> (r: bool)
    ensures
        r == forall|i: int| 0 <= i < entries@.len() ==> match (#[trigger] entries@[i]).0 {
            LuaInput::Integer { value, number } => 0 < value && value <= n,
            _ => false,
        },
{
    let count = entries.len();
    for i in 0..count
        invariant
            count == entries@.len(),
            forall|j: int| 0 <= j < i ==> match (#[trigger] entries@[j]).0 {
                LuaInput::Integer { value, number } => 0 < value && value <= n,
                _ => false,
            },
    {
        let ok = match &entries[i].0 {
            LuaInput::Integer { value: key, number: _ } => *key > 0 && (*key as u64) <= (n as u64),
            _ => false,
        };
        if !ok {
            return false;
        }
    }
    true
}

/// Converts a Lua value at nesting `depth` (0 for a value handed over
/// directly).
pub fn lua_to_ecs(value: &LuaInput, depth: usize) -> (r: Result<EcsValue, ConversionError>)
    ensures
        result_view(r) == lua_value(*value, depth as nat),
    decreases value,
{
    if depth > MAX_VALUE_DEPTH {
        return Err(ConversionError::TooDeep);
    }
    match value {
        LuaInput::Nil => Ok(EcsValue::Null),
        LuaInput::Boolean(b) => Ok(EcsValue::Bool(*b)),
        LuaInput::Integer { value: _, number } => Ok(EcsValue::Number(*number)),
        LuaInput::Number(bits) => {
            if finite_bits(*bits) {
                Ok(EcsValue::Number(*bits))
            } else {
                Err(ConversionError::NotFinite)
            }
        },
        LuaInput::String(s) => Ok(EcsValue::String(s.clone())),
        LuaInput::Other(name) => Err(ConversionError::Unsupported(name.clone())),
        LuaInput::Table(entries) => {
            let inner = depth + 1;
            let count = entries.len();
            let mut array_len: usize = 0;
            for i in 0..count
                invariant
                    count == entries@.len(),
                    array_len == max_array_index(entries@.take(i as int)),
            {
                proof {
                    assert(entries@.take(i + 1).drop_last() =~= entries@.take(i as int));
                }
                if let LuaInput::Integer { value: key, number: _ } = &entries[i].0 {
                    if *key > 0 && (*key as u64) <= (usize::MAX as u64) {
                        let k = *key as usize;
                        if k > array_len {
                            array_len = k;
                        }
                    }
                }
            }
            proof {
                assert(entries@.take(count as int) =~= entries@);
            }
            let is_array = count > 0 && count == array_len && keys_within(entries, array_len);
            assert(is_array == is_lua_array(entries@));
            if is_array {
                let mut items: Vec<EcsValue> = Vec::new();
                for i in 0..array_len
                    invariant
                        items@.len() == i,
                        forall|j: int| 0 <= j < i ==> value_model(#[trigger] items@[j]) == ValueModel::Null,
                {
                    items.push(EcsValue::Null);
                }
                assert(values_view(items@) =~= Seq::new(array_len as nat, |i: int| ValueModel::Null));
                assert(entries@.take(0) =~= Seq::<(LuaInput, LuaInput)>::empty());
                for i in 0..count
                    invariant
                        count == entries@.len(),
                        count == array_len,
                        is_lua_array(entries@),
                        inner == depth + 1,
                        inner <= MAX_VALUE_DEPTH + 1,
                        items@.len() == array_len,
                        lua_array(entries@.take(i as int), inner as nat, count as nat) == Ok::<Seq<ValueModel>, ErrorView>(values_view(items@)),
                        decreases_to!(*value => *entries),
                        *value == LuaInput::Table(*entries),
                        depth <= MAX_VALUE_DEPTH,
                {
                    proof {
                        lemma_array_prefix(entries@, inner as nat, count as nat, i as int);
                        assert(decreases_to!(*entries => entries@));
                        assert(decreases_to!(entries@ => entries@[i as int]));
                        assert(decreases_to!(entries@[i as int] => entries@[i as int].1));
                    }
                    let converted = lua_to_ecs(&entries[i].1, inner);
                    match converted {
                        Err(e) => {
                            proof {
                                lemma_array_err_persists(entries@, inner as nat, count as nat, i + 1, error_view(e));
                            }
                            return Err(e);
                        },
                        Ok(v) => {
                            let slot = match &entries[i].0 {
                                LuaInput::Integer { value: key, number: _ } => (*key - 1) as usize,
                                _ => 0,
                            };
                            let ghost before = items@;
                            items.set(slot, v);
                            proof {
                                assert(values_view(items@) =~= values_view(before).update(slot as int, value_model(v)));
                            }
                        },
                    }
                }
                proof {
                    assert(entries@.take(count as int) =~= entries@);
                }
                let r = EcsValue::Array(items);
                proof {
                    assert(value_model(r)->Array_0 =~= values_view(items@));
                }
                Ok(r)
            } else {
                let mut fields: NameMap<EcsValue> = NameMap::new();
                assert(entries@.take(0) =~= Seq::<(LuaInput, LuaInput)>::empty());
                assert(crate::value::fields_model(fields) =~= Map::<Seq<char>, ValueModel>::empty());
                for i in 0..count
                    invariant
                        count == entries@.len(),
                        !is_lua_array(entries@),
                        inner == depth + 1,
                        inner <= MAX_VALUE_DEPTH + 1,
                        lua_object(entries@.take(i as int), inner as nat) == Ok::<Map<Seq<char>, ValueModel>, ErrorView>(crate::value::fields_model(fields)),
                        decreases_to!(*value => *entries),
                        *value == LuaInput::Table(*entries),
                        depth <= MAX_VALUE_DEPTH,
                {
                    proof {
                        lemma_object_prefix(entries@, inner as nat, i as int);
                        assert(decreases_to!(*entries => entries@));
                        assert(decreases_to!(entries@ => entries@[i as int]));
                        assert(decreases_to!(entries@[i as int] => entries@[i as int].1));
                    }
                    match &entries[i].0 {
                        LuaInput::String(key) => {
                            let converted = lua_to_ecs(&entries[i].1, inner);
                            match converted {
                                Err(e) => {
                                    proof {
                                        lemma_object_err_persists(entries@, inner as nat, i + 1, error_view(e));
                                    }
                                    return Err(e);
                                },
                                Ok(v) => {
                                    let ghost before = crate::value::fields_model(fields);
                                    let ghost vm = value_model(v);
                                    fields.insert(key.clone(), v);
                                    proof {
                                        assert(crate::value::fields_model(fields) =~= before.insert(key@, vm));
                                    }
                                },
                            }
                        },
                        _ => {
                            proof {
                                lemma_object_err_persists(entries@, inner as nat, i + 1, ErrorView::NonStringKey);
                            }
                            return Err(ConversionError::NonStringKey);
                        },
                    }
                }
                proof {
                    assert(entries@.take(count as int) =~= entries@);
                }
                let r = EcsValue::Object(fields);
                proof {
                    assert(value_model(r)->Object_0 =~= crate::value::fields_model(fields));
                }
                Ok(r)
            }
        },
    }
}

} // verus!

verus! {

/// A JavaScript value, as plain values.
pub enum JsInput {
    /// `null` or `undefined`.
    Null,
    Bool(bool),
    /// A number, by the bit pattern of its `f64`.
    Number(u64),
    String(String),
    Array(Vec<JsInput>),
    /// An object, by its own properties in the order QuickJS lists them.
    Object(Vec<(String, JsInput)>),
    /// Any other value, by its type name.
    Other(String),
}

/// The content a JavaScript value converts to, at nesting `depth`.
pub open spec fn js_value(v: JsInput, depth: nat) -> Result<ValueModel, ErrorView>
    decreases v, 0nat,
{
    if depth > MAX_VALUE_DEPTH {
        Err(ErrorView::TooDeep)
    } else {
        match v {
            JsInput::Null => Ok(ValueModel::Null),
            JsInput::Bool(b) => Ok(ValueModel::Bool(b)),
            JsInput::Number(bits) => if is_finite_bits(bits) {
                Ok(ValueModel::Number(bits))
            } else {
                Err(ErrorView::NotFinite)
            },
            JsInput::String(s) => Ok(ValueModel::Str(s@)),
            JsInput::Array(items) => match js_items(items@, depth + 1) {
                Ok(values) => Ok(ValueModel::Array(values)),
                Err(e) => Err(e),
            },
            JsInput::Object(props) => match js_props(props@, depth + 1) {
                Ok(fields) => Ok(ValueModel::Object(fields)),
                Err(e) => Err(e),
            },
            JsInput::Other(name) => Err(ErrorView::Unsupported(name@)),
        }
    }
}

/// The items of an array, in order; the first failing item decides the error.
pub open spec fn js_items(items: Seq<JsInput>, depth: nat) -> Result<Seq<ValueModel>, ErrorView>
    decreases items, 1nat,
{
    if items.len() == 0 {
        Ok(Seq::empty())
    } else {
        proof {
            assert(decreases_to!(items => items.drop_last()));
        }
        match js_items(items.drop_last(), depth) {
            Err(e) => Err(e),
            Ok(values) => {
                proof {
                    assert(decreases_to!(items => items[items.len() - 1]));
                }
                match js_value(items.last(), depth) {
                    Err(e) => Err(e),
                    Ok(v) => Ok(values.push(v)),
                }
            },
        }
    }
}

/// The fields of an object, properties taken in order; a later property with
/// the same name wins; the first failing property decides the error.
pub open spec fn js_props(props: Seq<(String, JsInput)>, depth: nat) -> Result<Map<Seq<char>, ValueModel>, ErrorView>
    decreases props, 1nat,
{
    if props.len() == 0 {
        Ok(Map::empty())
    } else {
        proof {
            assert(decreases_to!(props => props.drop_last()));
        }
        match js_props(props.drop_last(), depth) {
            Err(e) => Err(e),
            Ok(fields) => {
                proof {
                    assert(decreases_to!(props => props[props.len() - 1]));
                }
                match js_value(props.last().1, depth) {
                    Err(e) => Err(e),
                    Ok(v) => Ok(fields.insert(props.last().0@, v)),
                }
            },
        }
    }
}

proof fn lemma_items_prefix(items: Seq<JsInput>, depth: nat, i: int)
    requires
        0 <= i < items.len(),
    ensures
        js_items(items.take(i + 1), depth) == match js_items(items.take(i), depth) {
            Err(e) => Err(e),
            Ok(values) => match js_value(items[i], depth) {
                Err(e) => Err(e),
                Ok(v) => Ok(values.push(v)),
            },
        },
{
    assert(items.take(i + 1).drop_last() =~= items.take(i));
}

proof fn lemma_items_err_persists(items: Seq<JsInput>, depth: nat, i: int, e: ErrorView)
    requires
        0 <= i <= items.len(),
        js_items(items.take(i), depth) == Err::<Seq<ValueModel>, ErrorView>(e),
    ensures
        js_items(items, depth) == Err::<Seq<ValueModel>, ErrorView>(e),
    decreases items.len() - i,
{
    if i == items.len() {
        assert(items.take(i) =~= items);
    } else {
        lemma_items_prefix(items, depth, i);
        lemma_items_err_persists(items, depth, i + 1, e);
    }
}

proof fn lemma_props_prefix(props: Seq<(String, JsInput)>, depth: nat, i: int)
    requires
        0 <= i < props.len(),
    ensures
        js_props(props.take(i + 1), depth) == match js_props(props.take(i), depth) {
            Err(e) => Err(e),
            Ok(fields) => match js_value(props[i].1, depth) {
                Err(e) => Err(e),
                Ok(v) => Ok(fields.insert(props[i].0@, v)),
            },
        },
{
    assert(props.take(i + 1).drop_last() =~= props.take(i));
}

proof fn lemma_props_err_persists(props: Seq<(String, JsInput)>, depth: nat, i: int, e: ErrorView)
    requires
        0 <= i <= props.len(),
        js_props(props.take(i), depth) == Err::<Map<Seq<char>, ValueModel>, ErrorView>(e),
    ensures
        js_props(props, depth) == Err::<Map<Seq<char>, ValueModel>, ErrorView>(e),
    decreases props.len() - i,
{
    if i == props.len() {
        assert(props.take(i) =~= props);
    } else {
        lemma_props_prefix(props, depth, i);
        lemma_props_err_persists(props, depth, i + 1, e);
    }
}

/// Converts a JavaScript value at nesting `depth` (0 for a value handed over
/// directly).
pub fn js_to_ecs(value: &JsInput, depth: usize) -> (r: Result<EcsValue, ConversionError>)
    ensures
        result_view(r) == js_value(*value, depth as nat),
    decreases value,
{
    if depth > MAX_VALUE_DEPTH {
        return Err(ConversionError::TooDeep);
    }
    match value {
        JsInput::Null => Ok(EcsValue::Null),
        JsInput::Bool(b) => Ok(EcsValue::Bool(*b)),
        JsInput::Number(bits) => {
            if finite_bits(*bits) {
                Ok(EcsValue::Number(*bits))
            } else {
                Err(ConversionError::NotFinite)
            }
        },
        JsInput::String(s) => Ok(EcsValue::String(s.clone())),
        JsInput::Other(name) => Err(ConversionError::Unsupported(name.clone())),
        JsInput::Array(items) => {
            let inner = depth + 1;
            let count = items.len();
            let mut out: Vec<EcsValue> = Vec::new();
            assert(items@.take(0) =~= Seq::<JsInput>::empty());
            assert(values_view(out@) =~= Seq::<ValueModel>::empty());
            for i in 0..count
                invariant
                    count == items@.len(),
                    inner == depth + 1,
                    inner <= MAX_VALUE_DEPTH + 1,
                    depth <= MAX_VALUE_DEPTH,
                    *value == JsInput::Array(*items),
                    decreases_to!(*value => *items),
                    js_items(items@.take(i as int), inner as nat) == Ok::<Seq<ValueModel>, ErrorView>(values_view(out@)),
            {
                proof {
                    lemma_items_prefix(items@, inner as nat, i as int);
                    assert(decreases_to!(*items => items@));
                    assert(decreases_to!(items@ => items@[i as int]));
                }
                match js_to_ecs(&items[i], inner) {
                    Err(e) => {
                        proof {
                            lemma_items_err_persists(items@, inner as nat, i + 1, error_view(e));
                        }
                        return Err(e);
                    },
                    Ok(v) => {
                        let ghost before = out@;
                        out.push(v);
                        proof {
                            assert(values_view(out@) =~= values_view(before).push(value_model(v)));
                        }
                    },
                }
            }
            proof {
                assert(items@.take(count as int) =~= items@);
            }
            let r = EcsValue::Array(out);
            proof {
                assert(value_model(r)->Array_0 =~= values_view(out@));
            }
            Ok(r)
        },
        JsInput::Object(props) => {
            let inner = depth + 1;
            let count = props.len();
            let mut fields: NameMap<EcsValue> = NameMap::new();
            assert(props@.take(0) =~= Seq::<(String, JsInput)>::empty());
            assert(crate::value::fields_model(fields) =~= Map::<Seq<char>, ValueModel>::empty());
            for i in 0..count
                invariant
                    count == props@.len(),
                    inner == depth + 1,
                    inner <= MAX_VALUE_DEPTH + 1,
                    depth <= MAX_VALUE_DEPTH,
                    *value == JsInput::Object(*props),
                    decreases_to!(*value => *props),
                    js_props(props@.take(i as int), inner as nat) == Ok::<Map<Seq<char>, ValueModel>, ErrorView>(crate::value::fields_model(fields)),
            {
                proof {
                    lemma_props_prefix(props@, inner as nat, i as int);
                    assert(decreases_to!(*props => props@));
                    assert(decreases_to!(props@ => props@[i as int]));
                    assert(decreases_to!(props@[i as int] => props@[i as int].1));
                }
                match js_to_ecs(&props[i].1, inner) {
                    Err(e) => {
                        proof {
                            lemma_props_err_persists(props@, inner as nat, i + 1, error_view(e));
                        }
                        return Err(e);
                    },
                    Ok(v) => {
                        let ghost before = crate::value::fields_model(fields);
                        let ghost vm = value_model(v);
                        fields.insert(props[i].0.clone(), v);
                        proof {
                            assert(crate::value::fields_model(fields) =~= before.insert(props@[i as int].0@, vm));
                        }
                    },
                }
            }
            proof {
                assert(props@.take(count as int) =~= props@);
            }
            let r = EcsValue::Object(fields);
            proof {
                assert(value_model(r)->Object_0 =~= crate::value::fields_model(fields));
            }
            Ok(r)
        },
    }
}

/// Converts a JavaScript component bundle: it must be an object, whose
/// properties become components.
pub fn js_bundle(value: &JsInput) -> (r: Result<NameMap<EcsValue>, ConversionError>)
    ensures
        match r {
            Ok(components) => js_value(*value, 0) == Ok::<ValueModel, ErrorView>(ValueModel::Object(crate::value::fields_model(components))),
            Err(e) => match js_value(*value, 0) {
                Ok(ValueModel::Object(_)) => false,
                Ok(_) => error_view(e) == ErrorView::NotAnObject,
                Err(x) => error_view(e) == x,
            },
        },
{
    match js_to_ecs(value, 0) {
        Ok(EcsValue::Object(components)) => {
            proof {
                assert(value_model(EcsValue::Object(components))->Object_0 =~= crate::value::fields_model(components));
            }
            Ok(components)
        },
        Ok(_) => Err(ConversionError::NotAnObject),
        Err(e) => Err(e),
    }
}

} // verus!

verus! {

/// Whether a value can be handed to a script engine from nesting `depth`:
/// no array or object item lies deeper than `MAX_VALUE_DEPTH`.
pub open spec fn fits_depth(v: EcsValue, depth: nat) -> bool
    decreases v,
{
    &&& depth <= MAX_VALUE_DEPTH
    &&& match v {
        EcsValue::Array(items) => forall|i: int| 0 <= i < items@.len() ==> fits_depth(#[trigger] items@[i], depth + 1),
        EcsValue::Object(fields) => forall|k: Seq<char>| #[trigger] fields@.contains_key(k) ==> {
            proof { fields.lemma_value_decreases(k); }
            fits_depth(fields@[k], depth + 1)
        },
        _ => true,
    }
}

proof fn lemma_fits_array(items: Vec<EcsValue>, depth: nat)
    ensures
        fits_depth(EcsValue::Array(items), depth) <==> depth <= MAX_VALUE_DEPTH
            && forall|j: int| 0 <= j < items@.len() ==> fits_depth(#[trigger] items@[j], depth + 1),
{
    let v = EcsValue::Array(items);
    if fits_depth(v, depth) {
        assert forall|j: int| 0 <= j < items@.len() implies fits_depth(#[trigger] items@[j], depth + 1) by {
            assert(decreases_to!(v => v->Array_0));
            assert(decreases_to!(items => items@));
            assert(decreases_to!(items@ => items@[j]));
        }
    }
}

proof fn lemma_fits_object(fields: NameMap<EcsValue>, depth: nat)
    ensures
        fits_depth(EcsValue::Object(fields), depth) <==> depth <= MAX_VALUE_DEPTH
            && forall|k: Seq<char>| #[trigger] fields@.contains_key(k) ==> fits_depth(fields@[k], depth + 1),
{
    let v = EcsValue::Object(fields);
    if fits_depth(v, depth) {
        assert forall|k: Seq<char>| #[trigger] fields@.contains_key(k) implies fits_depth(fields@[k], depth + 1) by {
            assert(decreases_to!(v => v->Object_0));
            fields.lemma_value_decreases(k);
        }
    }
}

/// Checks that a value can be handed to a script engine from nesting `depth`.
pub fn value_fits_depth(value: &EcsValue, depth: usize) -> (r: bool)
    ensures
        r == fits_depth(*value, depth as nat),
        r == model_fits(value_model(*value), depth as nat),
    decreases value,
{
    proof {
        lemma_fits_depth_model(*value, depth as nat);
    }
    if depth > MAX_VALUE_DEPTH {
        return false;
    }
    match value {
        EcsValue::Array(items) => {
            let n = items.len();
            assert(decreases_to!(*value => *items));
            let mut i: usize = 0;
            while i < n
                invariant
                    n == items@.len(),
                    i <= n,
                    depth <= MAX_VALUE_DEPTH,
                    *value == EcsValue::Array(*items),
                    decreases_to!(*value => *items),
                    forall|j: int| 0 <= j < i ==> fits_depth(#[trigger] items@[j], depth as nat + 1),
                decreases n - i,
            {
                assert(decreases_to!(*items => items@));
                assert(decreases_to!(items@ => items@[i as int]));
                let fits = value_fits_depth(&items[i], depth + 1);
                if !fits {
                    proof {
                        lemma_fits_array(*items, depth as nat);
                        lemma_fits_depth_model(*value, depth as nat);
                    }
                    return false;
                }
                i = i + 1;
            }
            proof { lemma_fits_array(*items, depth as nat); }
            true
        },
        EcsValue::Object(fields) => {
            proof {
                use_type_invariant(fields);
                fields.lemma_len();
            }
            let n = fields.len();
            assert(decreases_to!(*value => *fields));
            for i in 0..n
                invariant
                    n == fields.key_seq().len(),
                    fields.wf(),
                    fields@.dom() == fields.key_seq().to_set(),
                    depth <= MAX_VALUE_DEPTH,
                    *value == EcsValue::Object(*fields),
                    decreases_to!(*value => *fields),
                    forall|j: int| 0 <= j < i ==> fits_depth(fields@[#[trigger] fields.key_seq()[j]], depth as nat + 1),
            {
                proof {
                    fields.lemma_unique(i as int);
                    fields.lemma_value_decreases(fields.key_seq()[i as int]);
                }
                let fits = value_fits_depth(fields.value_at(i), depth + 1);
                if !fits {
                    proof {
                        let k = fields.key_seq()[i as int];
                        assert(fields@.contains_key(k));
                        lemma_fits_object(*fields, depth as nat);
                        lemma_fits_depth_model(*value, depth as nat);
                    }
                    return false;
                }
            }
            proof {
                assert forall|k: Seq<char>| #[trigger] fields@.contains_key(k) implies fits_depth(fields@[k], depth as nat + 1) by {
                    assert(fields.key_seq().to_set().contains(k));
                    let j = crate::name_map::index_of_key(fields.key_seq(), k);
                    assert(fits_depth(fields@[fields.key_seq()[j]], depth as nat + 1));
                }
                lemma_fits_object(*fields, depth as nat);
            }
            true
        },
        _ => true,
    }
}

} // verus!

verus! {

/// Whether the content of a value stays within the nesting limit from
/// `depth`: no node lies deeper than `MAX_VALUE_DEPTH`.
pub open spec fn model_fits(m: ValueModel, depth: nat) -> bool
    decreases m,
{
    &&& depth <= MAX_VALUE_DEPTH
    &&& match m {
        ValueModel::Array(items) => forall|i: int| 0 <= i < items.len() ==> model_fits(#[trigger] items[i], depth + 1),
        ValueModel::Object(fields) => forall|k: Seq<char>| #[trigger] fields.contains_key(k) ==> model_fits(fields[k], depth + 1),
        _ => true,
    }
}

/// Whether every number in the content of a value is finite.
pub open spec fn model_finite(m: ValueModel) -> bool
    decreases m,
{
    match m {
        ValueModel::Number(bits) => is_finite_bits(bits),
        ValueModel::Array(items) => forall|i: int| 0 <= i < items.len() ==> model_finite(#[trigger] items[i]),
        ValueModel::Object(fields) => forall|k: Seq<char>| #[trigger] fields.contains_key(k) ==> model_finite(fields[k]),
        _ => true,
    }
}

} // verus!

verus! {

/// What a JavaScript value converts to stays within the nesting limit and
/// holds only finite numbers.
pub proof fn lemma_js_value_within(v: JsInput, depth: nat)
    ensures
        js_value(v, depth) is Ok ==> model_fits(js_value(v, depth)->Ok_0, depth) && model_finite(js_value(v, depth)->Ok_0),
    decreases v, 0nat,
{
    if depth <= MAX_VALUE_DEPTH {
        match v {
            JsInput::Array(items) => {
                assert(decreases_to!(v => v->Array_0));
                assert(decreases_to!(items => items@));
                lemma_js_items_within(items@, depth + 1);
            },
            JsInput::Object(props) => {
                assert(decreases_to!(v => v->Object_0));
                assert(decreases_to!(props => props@));
                lemma_js_props_within(props@, depth + 1);
            },
            _ => {},
        }
    }
}

proof fn lemma_js_items_within(items: Seq<JsInput>, depth: nat)
    ensures
        js_items(items, depth) is Ok ==> {
            let values = js_items(items, depth)->Ok_0;
            &&& values.len() == items.len()
            &&& forall|i: int| 0 <= i < values.len() ==> model_fits(#[trigger] values[i], depth) && model_finite(values[i])
        },
    decreases items, 1nat,
{
    if items.len() > 0 {
        assert(decreases_to!(items => items.drop_last()));
        assert(decreases_to!(items => items[items.len() - 1]));
        lemma_js_items_within(items.drop_last(), depth);
        lemma_js_value_within(items.last(), depth);
    }
}

proof fn lemma_js_props_within(props: Seq<(String, JsInput)>, depth: nat)
    ensures
        js_props(props, depth) is Ok ==> {
            let fields = js_props(props, depth)->Ok_0;
            forall|k: Seq<char>| #[trigger] fields.contains_key(k) ==> model_fits(fields[k], depth) && model_finite(fields[k])
        },
    decreases props, 1nat,
{
    if props.len() > 0 {
        assert(decreases_to!(props => props.drop_last()));
        assert(decreases_to!(props => props[props.len() - 1]));
        lemma_js_props_within(props.drop_last(), depth);
        lemma_js_value_within(props.last().1, depth);
    }
}

} // verus!

verus! {

/// Whether every integer of a Lua value carries the bit pattern of a finite
/// `f64` (true of every `i64`).
pub open spec fn lua_numbers_finite(v: LuaInput) -> bool
    decreases v,
{
    match v {
        LuaInput::Integer { value, number } => is_finite_bits(number),
        LuaInput::Table(entries) => forall|i: int| 0 <= i < entries@.len() ==> {
            proof {
                assert(decreases_to!(v => v->Table_0));
                assert(decreases_to!(entries => entries@));
                assert(decreases_to!(entries@ => entries@[i]));
                assert(decreases_to!(entries@[i] => entries@[i].1));
            }
            lua_numbers_finite(#[trigger] entries@[i].1)
        },
        _ => true,
    }
}

/// What a Lua value converts to stays within the nesting limit, and holds
/// only finite numbers when its integers do.
pub proof fn lemma_lua_value_within(v: LuaInput, depth: nat)
    ensures
        lua_value(v, depth) is Ok ==> model_fits(lua_value(v, depth)->Ok_0, depth),
        lua_value(v, depth) is Ok && lua_numbers_finite(v) ==> model_finite(lua_value(v, depth)->Ok_0),
    decreases v, 0nat,
{
    if depth <= MAX_VALUE_DEPTH {
        match v {
            LuaInput::Table(entries) => {
                assert(decreases_to!(v => v->Table_0));
                assert(decreases_to!(entries => entries@));
                let s = entries@;
                if lua_numbers_finite(v) {
                    assert forall|j: int| 0 <= j < s.len() implies lua_numbers_finite(#[trigger] s[j].1) by {
                        assert(decreases_to!(s => s[j]));
                        assert(decreases_to!(s[j] => s[j].1));
                    }
                }
                if is_lua_array(s) {
                    assert forall|j: int| 0 <= j < s.len() implies 0 <= #[trigger] slot_of(s[j].0) < s.len() by {
                        assert(match s[j].0 {
                            LuaInput::Integer { value, number } => 0 < value && value <= max_array_index(s),
                            _ => false,
                        });
                    }
                    lemma_lua_array_within(s, depth + 1, s.len());
                    if lua_value(v, depth) is Ok {
                        let items = lua_array(s, depth + 1, s.len())->Ok_0;
                        assert forall|i: int| 0 <= i < items.len() implies model_fits(#[trigger] items[i], depth + 1) by {
                            if items[i] == ValueModel::Null {
                                assert(model_fits(ValueModel::Null, depth + 1));
                            }
                        }
                    }
                } else {
                    lemma_lua_object_within(s, depth + 1);
                }
            },
            _ => {},
        }
    }
}

proof fn lemma_lua_array_within(entries: Seq<(LuaInput, LuaInput)>, depth: nat, n: nat)
    requires
        forall|j: int| 0 <= j < entries.len() ==> 0 <= #[trigger] slot_of(entries[j].0) < n,
    ensures
        lua_array(entries, depth, n) is Ok ==> {
            let items = lua_array(entries, depth, n)->Ok_0;
            &&& items.len() == n
            &&& entries.len() > 0 ==> depth <= MAX_VALUE_DEPTH
            &&& forall|i: int| 0 <= i < items.len() ==> #[trigger] items[i] == ValueModel::Null || model_fits(items[i], depth)
        },
        lua_array(entries, depth, n) is Ok && (forall|j: int| 0 <= j < entries.len() ==> lua_numbers_finite(#[trigger] entries[j].1)) ==> {
            let items = lua_array(entries, depth, n)->Ok_0;
            forall|i: int| 0 <= i < items.len() ==> model_finite(#[trigger] items[i])
        },
    decreases entries, 1nat,
{
    if entries.len() > 0 {
        assert(decreases_to!(entries => entries.drop_last()));
        assert(decreases_to!(entries => entries[entries.len() - 1]));
        assert(decreases_to!(entries[entries.len() - 1] => entries[entries.len() - 1].1));
        let rest = entries.drop_last();
        let last = entries.last();
        assert forall|j: int| 0 <= j < rest.len() implies 0 <= #[trigger] slot_of(rest[j].0) < n by {
            assert(rest[j] == entries[j]);
        }
        assert(0 <= slot_of(entries[entries.len() - 1].0) < n);
        lemma_lua_array_within(rest, depth, n);
        lemma_lua_value_within(last.1, depth);
        if lua_array(entries, depth, n) is Ok {
            let items = lua_array(entries, depth, n)->Ok_0;
            let before = lua_array(rest, depth, n)->Ok_0;
            let v = lua_value(last.1, depth)->Ok_0;
            let slot = slot_of(last.0);
            assert(items == before.update(slot, v));
            assert forall|i: int| 0 <= i < items.len() implies #[trigger] items[i] == ValueModel::Null || model_fits(items[i], depth) by {
                if i != slot {
                    assert(items[i] == before[i]);
                }
            }
            if forall|j: int| 0 <= j < entries.len() ==> lua_numbers_finite(#[trigger] entries[j].1) {
                assert forall|j: int| 0 <= j < rest.len() implies lua_numbers_finite(#[trigger] rest[j].1) by {
                    assert(rest[j] == entries[j]);
                }
                assert(lua_numbers_finite(entries[entries.len() - 1].1));
                assert forall|i: int| 0 <= i < items.len() implies model_finite(#[trigger] items[i]) by {
                    if i != slot {
                        assert(items[i] == before[i]);
                    }
                }
            }
        }
    } else {
        let items = lua_array(entries, depth, n)->Ok_0;
        assert forall|i: int| 0 <= i < items.len() implies model_finite(#[trigger] items[i]) by {
            assert(items[i] == ValueModel::Null);
        }
    }
}

proof fn lemma_lua_object_within(entries: Seq<(LuaInput, LuaInput)>, depth: nat)
    ensures
        lua_object(entries, depth) is Ok ==> {
            let fields = lua_object(entries, depth)->Ok_0;
            forall|k: Seq<char>| #[trigger] fields.contains_key(k) ==> model_fits(fields[k], depth)
        },
        lua_object(entries, depth) is Ok && (forall|j: int| 0 <= j < entries.len() ==> lua_numbers_finite(#[trigger] entries[j].1)) ==> {
            let fields = lua_object(entries, depth)->Ok_0;
            forall|k: Seq<char>| #[trigger] fields.contains_key(k) ==> model_finite(fields[k])
        },
    decreases entries, 1nat,
{
    if entries.len() > 0 {
        assert(decreases_to!(entries => entries.drop_last()));
        assert(decreases_to!(entries => entries[entries.len() - 1]));
        assert(decreases_to!(entries[entries.len() - 1] => entries[entries.len() - 1].1));
        let rest = entries.drop_last();
        lemma_lua_object_within(rest, depth);
        lemma_lua_value_within(entries.last().1, depth);
        if forall|j: int| 0 <= j < entries.len() ==> lua_numbers_finite(#[trigger] entries[j].1) {
            assert forall|j: int| 0 <= j < rest.len() implies lua_numbers_finite(#[trigger] rest[j].1) by {
                assert(rest[j] == entries[j]);
            }
            assert(lua_numbers_finite(entries[entries.len() - 1].1));
        }
    }
}

} // verus!

verus! {

proof fn lemma_model_fits_array(items: Seq<ValueModel>, depth: nat)
    ensures
        model_fits(ValueModel::Array(items), depth) <==> depth <= MAX_VALUE_DEPTH
            && forall|j: int| 0 <= j < items.len() ==> model_fits(#[trigger] items[j], depth + 1),
{
    let m = ValueModel::Array(items);
    if model_fits(m, depth) {
        assert forall|j: int| 0 <= j < items.len() implies model_fits(#[trigger] items[j], depth + 1) by {
            assert(decreases_to!(m => m->Array_0));
            assert(decreases_to!(items => items[j]));
        }
    }
}

proof fn lemma_model_fits_object(fields: Map<Seq<char>, ValueModel>, depth: nat)
    ensures
        model_fits(ValueModel::Object(fields), depth) <==> depth <= MAX_VALUE_DEPTH
            && forall|k: Seq<char>| #[trigger] fields.contains_key(k) ==> model_fits(fields[k], depth + 1),
{
    let m = ValueModel::Object(fields);
    if model_fits(m, depth) {
        assert forall|k: Seq<char>| #[trigger] fields.contains_key(k) implies model_fits(fields[k], depth + 1) by {
            assert(decreases_to!(m => m->Object_0));
        }
    }
}

/// A value fits the nesting limit exactly when its content does.
pub proof fn lemma_fits_depth_model(v: EcsValue, depth: nat)
    ensures
        fits_depth(v, depth) == model_fits(value_model(v), depth),
    decreases v,
{
    match v {
        EcsValue::Array(items) => {
            let m = value_model(v);
            let s = m->Array_0;
            lemma_fits_array(items, depth);
            lemma_model_fits_array(s, depth);
            assert forall|j: int| 0 <= j < items@.len() implies
                fits_depth(#[trigger] items@[j], depth + 1) == model_fits(s[j], depth + 1) by {
                assert(decreases_to!(v => v->Array_0));
                assert(decreases_to!(items => items@));
                assert(decreases_to!(items@ => items@[j]));
                lemma_fits_depth_model(items@[j], depth + 1);
            }
        },
        EcsValue::Object(fields) => {
            let m = value_model(v);
            let f = m->Object_0;
            lemma_fits_object(fields, depth);
            lemma_model_fits_object(f, depth);
            assert forall|k: Seq<char>| #[trigger] fields@.contains_key(k) implies
                fits_depth(fields@[k], depth + 1) == model_fits(f[k], depth + 1) by {
                assert(decreases_to!(v => v->Object_0));
                fields.lemma_value_decreases(k);
                lemma_fits_depth_model(fields@[k], depth + 1);
            }
            assert(f.dom() =~= fields@.dom());
        },
        _ => {},
    }
}

} // verus!

verus! {

/// The names of an object's properties, in order.
pub open spec fn prop_names(props: Seq<(String, JsInput)>) -> Seq<Seq<char>> {
    props.map_values(|p: (String, JsInput)| p.0@)
}

/// Whether a JavaScript value is how the content `m` is handed to a script:
/// the same scalars, the same items in order, and each field once under its
/// name.
pub open spec fn js_mirrors(j: JsInput, m: ValueModel) -> bool
    decreases j,
{
    match j {
        JsInput::Null => m == ValueModel::Null,
        JsInput::Bool(b) => m == ValueModel::Bool(b),
        JsInput::Number(bits) => m == ValueModel::Number(bits),
        JsInput::String(s) => m == ValueModel::Str(s@),
        JsInput::Array(items) => {
            &&& m is Array
            &&& items@.len() == m->Array_0.len()
            &&& forall|i: int| 0 <= i < items@.len() ==> {
                proof {
                    assert(decreases_to!(j => j->Array_0));
                    assert(decreases_to!(items => items@));
                    assert(decreases_to!(items@ => items@[i]));
                }
                js_mirrors(#[trigger] items@[i], m->Array_0[i])
            }
        },
        JsInput::Object(props) => {
            &&& m is Object
            &&& prop_names(props@).no_duplicates()
            &&& m->Object_0.dom() == prop_names(props@).to_set()
            &&& forall|i: int| 0 <= i < props@.len() ==> {
                proof {
                    assert(decreases_to!(j => j->Object_0));
                    assert(decreases_to!(props => props@));
                    assert(decreases_to!(props@ => props@[i]));
                    assert(decreases_to!(props@[i] => props@[i].1));
                }
                js_mirrors(#[trigger] props@[i].1, m->Object_0[props@[i].0@])
            }
        },
        JsInput::Other(_) => false,
    }
}

} // verus!

verus! {

/// How a value is handed to a JavaScript script, as plain values: arrays
/// item by item, objects field by field in name order.
pub fn ecs_to_js_input(value: &EcsValue) -> (r: JsInput)
    ensures
        js_mirrors(r, value_model(*value)),
    decreases value,
{
    match value {
        EcsValue::Null => JsInput::Null,
        EcsValue::Bool(b) => JsInput::Bool(*b),
        EcsValue::Number(n) => JsInput::Number(*n),
        EcsValue::String(s) => JsInput::String(s.clone()),
        EcsValue::Array(items) => {
            let ghost m = value_model(*value);
            let n = items.len();
            let mut out: Vec<JsInput> = Vec::new();
            assert(decreases_to!(*value => *items));
            for i in 0..n
                invariant
                    n == items@.len(),
                    decreases_to!(*value => *items),
                    out@.len() == i,
                    forall|j: int| 0 <= j < i ==> js_mirrors(#[trigger] out@[j], value_model(items@[j])),
            {
                assert(decreases_to!(*items => items@));
                assert(decreases_to!(items@ => items@[i as int]));
                let item = ecs_to_js_input(&items[i]);
                out.push(item);
            }
            let r = JsInput::Array(out);
            proof {
                assert(m->Array_0.len() == n);
                assert forall|i: int| 0 <= i < out@.len() implies js_mirrors(#[trigger] out@[i], m->Array_0[i]) by {
                    assert(m->Array_0[i] == value_model(items@[i]));
                }
            }
            r
        },
        EcsValue::Object(fields) => {
            proof {
                use_type_invariant(fields);
                fields.lemma_len();
            }
            let ghost m = value_model(*value);
            let n = fields.len();
            let mut props: Vec<(String, JsInput)> = Vec::new();
            assert(decreases_to!(*value => *fields));
            for i in 0..n
                invariant
                    n == fields.key_seq().len(),
                    fields.wf(),
                    decreases_to!(*value => *fields),
                    props@.len() == i,
                    forall|j: int| 0 <= j < i ==> (#[trigger] props@[j]).0@ == fields.key_seq()[j],
                    forall|j: int| 0 <= j < i ==> js_mirrors((#[trigger] props@[j]).1, value_model(fields@[fields.key_seq()[j]])),
            {
                proof {
                    fields.lemma_unique(i as int);
                    fields.lemma_value_decreases(fields.key_seq()[i as int]);
                }
                let key = fields.key_at(i).clone();
                let v = ecs_to_js_input(fields.value_at(i));
                props.push((key, v));
            }
            let r = JsInput::Object(props);
            proof {
                let names = prop_names(props@);
                assert(names =~= fields.key_seq());
                assert forall|a: int, b: int| 0 <= a < names.len() && 0 <= b < names.len() && a != b implies names[a] != names[b] by {
                    fields.lemma_unique(a);
                    fields.lemma_unique(b);
                }
                assert(m->Object_0.dom() =~= names.to_set()) by {
                    assert forall|k: Seq<char>| #[trigger] m->Object_0.dom().contains(k) <==> names.to_set().contains(k) by {
                        if fields@.contains_key(k) {
                            assert(fields@.dom().contains(k));
                        }
                    }
                }
                assert forall|i: int| 0 <= i < props@.len() implies
                    js_mirrors(#[trigger] props@[i].1, m->Object_0[props@[i].0@]) by {
                    fields.lemma_unique(i);
                }
            }
            r
        },
    }
}

} // verus!

verus! {

proof fn lemma_model_finite_parts(m: ValueModel)
    ensures
        m is Array && model_finite(m) ==> forall|i: int| 0 <= i < m->Array_0.len() ==> model_finite(#[trigger] m->Array_0[i]),
        m is Object && model_finite(m) ==> forall|k: Seq<char>| #[trigger] m->Object_0.contains_key(k) ==> model_finite(m->Object_0[k]),
{
    if m is Array && model_finite(m) {
        let items = m->Array_0;
        assert forall|i: int| 0 <= i < items.len() implies model_finite(#[trigger] items[i]) by {
            assert(decreases_to!(m => m->Array_0));
            assert(decreases_to!(items => items[i]));
        }
    }
    if m is Object && model_finite(m) {
        let fields = m->Object_0;
        assert forall|k: Seq<char>| #[trigger] fields.contains_key(k) implies model_finite(fields[k]) by {
            assert(decreases_to!(m => m->Object_0));
        }
    }
}

proof fn lemma_js_items_read_back(items: Seq<JsInput>, ms: Seq<ValueModel>, depth: nat)
    requires
        items.len() == ms.len(),
        forall|i: int| 0 <= i < items.len() ==> js_value(#[trigger] items[i], depth) == Ok::<ValueModel, ErrorView>(ms[i]),
    ensures
        js_items(items, depth) == Ok::<Seq<ValueModel>, ErrorView>(ms),
    decreases items.len(),
{
    if items.len() == 0 {
        assert(ms =~= Seq::<ValueModel>::empty());
    } else {
        let n = items.len() - 1;
        assert forall|i: int| 0 <= i < items.drop_last().len() implies
            js_value(#[trigger] items.drop_last()[i], depth) == Ok::<ValueModel, ErrorView>(ms.drop_last()[i]) by {
            assert(items.drop_last()[i] == items[i]);
        }
        lemma_js_items_read_back(items.drop_last(), ms.drop_last(), depth);
        assert(js_value(items[n], depth) == Ok::<ValueModel, ErrorView>(ms[n]));
        assert(ms.drop_last().push(ms[n]) =~= ms);
    }
}

proof fn lemma_js_props_read_back(props: Seq<(String, JsInput)>, f: Map<Seq<char>, ValueModel>, depth: nat)
    requires
        prop_names(props).no_duplicates(),
        forall|i: int| 0 <= i < props.len() ==> f.contains_key(#[trigger] props[i].0@),
        forall|i: int| 0 <= i < props.len() ==> js_value((#[trigger] props[i]).1, depth) == Ok::<ValueModel, ErrorView>(f[props[i].0@]),
    ensures
        js_props(props, depth) == Ok::<Map<Seq<char>, ValueModel>, ErrorView>(f.restrict(prop_names(props).to_set())),
    decreases props.len(),
{
    let names = prop_names(props);
    if props.len() == 0 {
        assert(f.restrict(names.to_set()) =~= Map::<Seq<char>, ValueModel>::empty());
    } else {
        let n = props.len() - 1;
        let rest = props.drop_last();
        assert(prop_names(rest) =~= names.drop_last());
        assert forall|a: int, b: int| 0 <= a < prop_names(rest).len() && 0 <= b < prop_names(rest).len() && a != b
            implies prop_names(rest)[a] != prop_names(rest)[b] by {
            assert(prop_names(rest)[a] == names[a] && prop_names(rest)[b] == names[b]);
        }
        assert forall|i: int| 0 <= i < rest.len() implies f.contains_key(#[trigger] rest[i].0@) by {
            assert(rest[i] == props[i]);
        }
        assert forall|i: int| 0 <= i < rest.len() implies
            js_value((#[trigger] rest[i]).1, depth) == Ok::<ValueModel, ErrorView>(f[rest[i].0@]) by {
            assert(rest[i] == props[i]);
        }
        lemma_js_props_read_back(rest, f, depth);
        let last = props[n];
        assert(js_value(last.1, depth) == Ok::<ValueModel, ErrorView>(f[last.0@]));
        assert(names[n] == last.0@);
        assert(f.restrict(prop_names(rest).to_set()).insert(last.0@, f[last.0@]) =~= f.restrict(names.to_set())) by {
            assert forall|k: Seq<char>| #[trigger] names.to_set().contains(k) <==> (prop_names(rest).to_set().contains(k) || k == last.0@) by {
                if names.to_set().contains(k) && k != last.0@ {
                    let q = choose|q: int| 0 <= q < names.len() && names[q] == k;
                    assert(q != n);
                    assert(prop_names(rest)[q] == k);
                }
                if prop_names(rest).to_set().contains(k) {
                    let q = choose|q: int| 0 <= q < prop_names(rest).len() && prop_names(rest)[q] == k;
                    assert(names[q] == k);
                }
            }
        }
    }
}

/// A value handed to a JavaScript script as its mirror reads back unchanged,
/// when it meets the limits on values sent to scripts.
pub proof fn lemma_js_mirror_reads_back(j: JsInput, m: ValueModel, depth: nat)
    requires
        js_mirrors(j, m),
        model_fits(m, depth),
        model_finite(m),
    ensures
        js_value(j, depth) == Ok::<ValueModel, ErrorView>(m),
    decreases j,
{
    match j {
        JsInput::Array(items) => {
            let ms = m->Array_0;
            lemma_model_fits_array(ms, depth);
            lemma_model_finite_parts(m);
            assert forall|i: int| 0 <= i < items@.len() implies
                js_value(#[trigger] items@[i], depth + 1) == Ok::<ValueModel, ErrorView>(ms[i]) by {
                assert(decreases_to!(j => j->Array_0));
                assert(decreases_to!(items => items@));
                assert(decreases_to!(items@ => items@[i]));
                assert(js_mirrors(items@[i], ms[i]));
                lemma_js_mirror_reads_back(items@[i], ms[i], depth + 1);
            }
            lemma_js_items_read_back(items@, ms, depth + 1);
        },
        JsInput::Object(props) => {
            let f = m->Object_0;
            lemma_model_fits_object(f, depth);
            lemma_model_finite_parts(m);
            let ps = props@;
            assert forall|i: int| 0 <= i < ps.len() implies f.contains_key(#[trigger] ps[i].0@) by {
                assert(prop_names(ps)[i] == ps[i].0@);
                assert(prop_names(ps).to_set().contains(ps[i].0@));
            }
            assert forall|i: int| 0 <= i < ps.len() implies
                js_value((#[trigger] ps[i]).1, depth + 1) == Ok::<ValueModel, ErrorView>(f[ps[i].0@]) by {
                assert(decreases_to!(j => j->Object_0));
                assert(decreases_to!(props => props@));
                assert(decreases_to!(props@ => props@[i]));
                assert(decreases_to!(props@[i] => props@[i].1));
                assert(js_mirrors(ps[i].1, f[ps[i].0@]));
                assert(f.contains_key(ps[i].0@));
                lemma_js_mirror_reads_back(ps[i].1, f[ps[i].0@], depth + 1);
            }
            lemma_js_props_read_back(ps, f, depth + 1);
            assert(f.restrict(prop_names(ps).to_set()) =~= f);
        },
        _ => {},
    }
}

} // verus!

verus! {

/// Each entry of a Lua array table lands at its index: with distinct keys,
/// slot `k - 1` holds what the value under key `k` converts to, and every
/// entry converts.
pub proof fn lemma_lua_array_slots(entries: Seq<(LuaInput, LuaInput)>, depth: nat, n: nat)
    requires
        forall|a: int, b: int| 0 <= a < b < entries.len() ==> slot_of(#[trigger] entries[a].0) != slot_of(#[trigger] entries[b].0),
        forall|j: int| 0 <= j < entries.len() ==> 0 <= #[trigger] slot_of(entries[j].0) < n,
        lua_array(entries, depth, n) is Ok,
    ensures
        lua_array(entries, depth, n)->Ok_0.len() == n,
        forall|j: int| 0 <= j < entries.len() ==> lua_value(#[trigger] entries[j].1, depth) is Ok
            && lua_array(entries, depth, n)->Ok_0[slot_of(entries[j].0)] == lua_value(entries[j].1, depth)->Ok_0,
    decreases entries.len(),
{
    if entries.len() > 0 {
        let rest = entries.drop_last();
        let last = entries.last();
        assert forall|a: int, b: int| 0 <= a < b < rest.len() implies slot_of(#[trigger] rest[a].0) != slot_of(#[trigger] rest[b].0) by {
            assert(rest[a] == entries[a] && rest[b] == entries[b]);
        }
        assert forall|j: int| 0 <= j < rest.len() implies 0 <= #[trigger] slot_of(rest[j].0) < n by {
            assert(rest[j] == entries[j]);
        }
        assert(0 <= slot_of(entries[entries.len() - 1].0) < n);
        lemma_lua_array_slots(rest, depth, n);
        let items = lua_array(entries, depth, n)->Ok_0;
        let before = lua_array(rest, depth, n)->Ok_0;
        assert(items == before.update(slot_of(last.0), lua_value(last.1, depth)->Ok_0));
        assert forall|j: int| 0 <= j < entries.len() implies lua_value(#[trigger] entries[j].1, depth) is Ok
            && items[slot_of(entries[j].0)] == lua_value(entries[j].1, depth)->Ok_0 by {
            if j < entries.len() - 1 {
                assert(rest[j] == entries[j]);
                assert(slot_of(entries[j].0) != slot_of(entries[entries.len() - 1].0));
            }
        }
    }
}

/// Whether no two keys of a table are strings with the same text.
pub open spec fn string_keys_distinct(entries: Seq<(LuaInput, LuaInput)>) -> bool {
    forall|a: int, b: int| 0 <= a < b < entries.len() && (#[trigger] entries[a].0) is String && (#[trigger] entries[b].0) is String
        ==> entries[a].0->String_0@ != entries[b].0->String_0@
}

/// Each entry of a Lua object table lands under its name: with distinct
/// keys, the field named by each key holds what its value converts to, and
/// the fields are exactly the keys.
pub proof fn lemma_lua_object_fields(entries: Seq<(LuaInput, LuaInput)>, depth: nat)
    requires
        string_keys_distinct(entries),
        lua_object(entries, depth) is Ok,
    ensures
        forall|j: int| 0 <= j < entries.len() ==> (#[trigger] entries[j].0) is String
            && lua_value(entries[j].1, depth) is Ok
            && lua_object(entries, depth)->Ok_0.contains_key(entries[j].0->String_0@)
            && lua_object(entries, depth)->Ok_0[entries[j].0->String_0@] == lua_value(entries[j].1, depth)->Ok_0,
        forall|k: Seq<char>| #[trigger] lua_object(entries, depth)->Ok_0.contains_key(k) ==>
            exists|j: int| 0 <= j < entries.len() && (#[trigger] entries[j].0) is String && entries[j].0->String_0@ == k,
    decreases entries.len(),
{
    if entries.len() > 0 {
        let rest = entries.drop_last();
        let last = entries.last();
        assert(string_keys_distinct(rest)) by {
            assert forall|a: int, b: int| 0 <= a < b < rest.len() && (#[trigger] rest[a].0) is String && (#[trigger] rest[b].0) is String
                implies rest[a].0->String_0@ != rest[b].0->String_0@ by {
                assert(rest[a] == entries[a] && rest[b] == entries[b]);
            }
        }
        lemma_lua_object_fields(rest, depth);
        let fields = lua_object(entries, depth)->Ok_0;
        let before = lua_object(rest, depth)->Ok_0;
        assert(last.0 is String);
        let key = last.0->String_0@;
        assert(fields == before.insert(key, lua_value(last.1, depth)->Ok_0));
        assert forall|j: int| 0 <= j < entries.len() implies (#[trigger] entries[j].0) is String
            && lua_value(entries[j].1, depth) is Ok
            && fields.contains_key(entries[j].0->String_0@)
            && fields[entries[j].0->String_0@] == lua_value(entries[j].1, depth)->Ok_0 by {
            if j < entries.len() - 1 {
                assert(rest[j] == entries[j]);
                assert(entries[j].0->String_0@ != key);
            }
        }
        assert forall|k: Seq<char>| #[trigger] fields.contains_key(k) implies
            exists|j: int| 0 <= j < entries.len() && (#[trigger] entries[j].0) is String && entries[j].0->String_0@ == k by {
            if k == key {
                assert(entries[entries.len() - 1].0 is String);
            } else {
                assert(before.contains_key(k));
                let j = choose|j: int| 0 <= j < rest.len() && (#[trigger] rest[j].0) is String && rest[j].0->String_0@ == k;
                assert(rest[j] == entries[j]);
            }
        }
    }
}

/// A JavaScript array converts item by item, in order.
pub proof fn lemma_js_items_in_order(items: Seq<JsInput>, depth: nat)
    requires
        js_items(items, depth) is Ok,
    ensures
        js_items(items, depth)->Ok_0.len() == items.len(),
        forall|i: int| 0 <= i < items.len() ==>
            js_value(#[trigger] items[i], depth) == Ok::<ValueModel, ErrorView>(js_items(items, depth)->Ok_0[i]),
    decreases items.len(),
{
    if items.len() > 0 {
        let rest = items.drop_last();
        lemma_js_items_in_order(rest, depth);
        assert forall|i: int| 0 <= i < items.len() implies
            js_value(#[trigger] items[i], depth) == Ok::<ValueModel, ErrorView>(js_items(items, depth)->Ok_0[i]) by {
            if i < items.len() - 1 {
                assert(rest[i] == items[i]);
            }
        }
    }
}

/// A JavaScript object converts property by property: with distinct names,
/// each field holds what its property converts to, and the fields are
/// exactly the names.
pub proof fn lemma_js_props_by_name(props: Seq<(String, JsInput)>, depth: nat)
    requires
        prop_names(props).no_duplicates(),
        js_props(props, depth) is Ok,
    ensures
        js_props(props, depth)->Ok_0.dom() == prop_names(props).to_set(),
        forall|i: int| 0 <= i < props.len() ==>
            js_value((#[trigger] props[i]).1, depth) == Ok::<ValueModel, ErrorView>(js_props(props, depth)->Ok_0[props[i].0@]),
    decreases props.len(),
{
    if props.len() > 0 {
        let rest = props.drop_last();
        let n = props.len() - 1;
        let names = prop_names(props);
        assert(prop_names(rest) =~= names.drop_last());
        assert forall|a: int, b: int| 0 <= a < prop_names(rest).len() && 0 <= b < prop_names(rest).len() && a != b
            implies prop_names(rest)[a] != prop_names(rest)[b] by {
            assert(prop_names(rest)[a] == names[a] && prop_names(rest)[b] == names[b]);
        }
        lemma_js_props_by_name(rest, depth);
        let fields = js_props(props, depth)->Ok_0;
        let before = js_props(rest, depth)->Ok_0;
        assert(names[n] == props[n].0@);
        assert(fields.dom() =~= names.to_set()) by {
            assert forall|k: Seq<char>| #[trigger] names.to_set().contains(k) <==> (prop_names(rest).to_set().contains(k) || k == props[n].0@) by {
                if names.to_set().contains(k) && k != props[n].0@ {
                    let q = choose|q: int| 0 <= q < names.len() && names[q] == k;
                    assert(q != n);
                    assert(prop_names(rest)[q] == k);
                }
                if prop_names(rest).to_set().contains(k) {
                    let q = choose|q: int| 0 <= q < prop_names(rest).len() && prop_names(rest)[q] == k;
                    assert(names[q] == k);
                }
            }
        }
        assert forall|i: int| 0 <= i < props.len() implies
            js_value((#[trigger] props[i]).1, depth) == Ok::<ValueModel, ErrorView>(fields[props[i].0@]) by {
            if i < n {
                assert(rest[i] == props[i]);
                assert(names[i] != names[n]);
            }
        }
    }
}

} // verus!
