//! Language-neutral values stored in script components and resources.

use vstd::prelude::*;
use crate::name_map::{index_of_key, NameMap};
use vstd::std_specs::cmp::PartialEqSpecImpl;

verus! {

/// The mathematical content of an [`EcsValue`]: strings by their characters,
/// arrays as sequences, objects as maps from field names.
pub enum ValueModel {
    Null,
    Bool(bool),
    Number(u64),
    Str(Seq<char>),
    Array(Seq<ValueModel>),
    Object(Map<Seq<char>, ValueModel>),
}

/// A language-neutral value stored in script-defined ECS components and resources.
#[derive(Debug, Default)]
pub enum EcsValue {
    /// No value.
    #[default]
    Null,
    /// A boolean value.
    Bool(bool),
    /// A finite number, held as the bit pattern of its IEEE-754 `f64`
    /// (`f64::to_bits`).
    Number(u64),
    /// A UTF-8 string.
    String(String),
    /// An ordered sequence.
    Array(Vec<EcsValue>),
    /// A string-keyed record, sorted by field name.
    Object(NameMap<EcsValue>),
}

/// The content of a value.
pub open spec fn value_model(v: EcsValue) -> ValueModel
    decreases v,
{
    match v {
        EcsValue::Null => ValueModel::Null,
        EcsValue::Bool(b) => ValueModel::Bool(b),
        EcsValue::Number(n) => ValueModel::Number(n),
        EcsValue::String(s) => ValueModel::Str(s@),
        EcsValue::Array(items) => ValueModel::Array(
            Seq::new(
                items@.len(),
                |i: int|
                    if 0 <= i < items@.len() {
                        value_model(items@[i])
                    } else {
                        ValueModel::Null
                    },
            ),
        ),
        EcsValue::Object(fields) => ValueModel::Object(
            Map::new(
                |k: Seq<char>| fields@.contains_key(k),
                |k: Seq<char>|
                    if fields@.contains_key(k) {
                        proof { fields.lemma_value_decreases(k); }
                        value_model(fields@[k])
                    } else {
                        ValueModel::Null
                    },
            ),
        ),
    }
}

} // verus!

verus! {

impl EcsValue {
    /// The field `name` of an object (`None` for other values).
    pub open spec fn field_spec(&self, name: Seq<char>) -> Option<EcsValue> {
        match self {
            EcsValue::Object(fields) => if fields@.contains_key(name) {
                Some(fields@[name])
            } else {
                None
            },
            _ => None,
        }
    }

    /// Returns an object field.
    pub fn field(&self, name: &str) -> (r: Option<&EcsValue>)
        ensures
            match r {
                Some(v) => self.field_spec(name@) == Some(*v),
                None => self.field_spec(name@) is None,
            },
            match self {
                EcsValue::Object(fields) => match r {
                    Some(v) => fields@.contains_key(name@) && *v == fields@[name@],
                    None => !fields@.contains_key(name@),
                },
                _ => r is None,
            },
    {
        match self {
            EcsValue::Object(fields) => fields.get(name),
            _ => None,
        }
    }

    /// Returns this value as a number (its `f64` bit pattern).
    pub fn as_number(&self) -> (r: Option<u64>)
        ensures
            r == match self {
                EcsValue::Number(n) => Some(*n),
                _ => None::<u64>,
            },
    {
        match self {
            EcsValue::Number(value) => Some(*value),
            _ => None,
        }
    }

    /// Returns this value as a string.
    pub fn as_str(&self) -> (r: Option<&str>)
        ensures
            match self {
                EcsValue::String(s) => r is Some && r.unwrap()@ == s@,
                _ => r is None,
            },
    {
        match self {
            EcsValue::String(value) => Some(value.as_str()),
            _ => None,
        }
    }

    /// A copy of this value with the same content.
    pub fn duplicate(&self) -> (r: EcsValue)
        ensures
            value_model(r) == value_model(*self),
        decreases self,
    {
        match self {
            EcsValue::Null => EcsValue::Null,
            EcsValue::Bool(b) => EcsValue::Bool(*b),
            EcsValue::Number(n) => EcsValue::Number(*n),
            EcsValue::String(s) => EcsValue::String(s.clone()),
            EcsValue::Array(items) => {
                let mut out: Vec<EcsValue> = Vec::new();
                let n = items.len();
                assert(decreases_to!(*self => *items));
                for i in 0..n
                    invariant
                        decreases_to!(*self => *items),
                        n == items@.len(),
                        out@.len() == i,
                        forall|j: int| 0 <= j < i ==> value_model(#[trigger] out@[j]) == value_model(items@[j]),
                {
                    assert(decreases_to!(*items => items@));
                    assert(decreases_to!(items@ => items@[i as int]));
                    let item = items[i].duplicate();
                    out.push(item);
                }
                let r = EcsValue::Array(out);
                proof {
                    let a = value_model(r);
                    let b = value_model(*self);
                    assert(a->Array_0 =~= b->Array_0);
                }
                r
            },
            EcsValue::Object(fields) => {
                proof {
                    use_type_invariant(fields);
                }
                let mut out: NameMap<EcsValue> = NameMap::new();
                let n = fields.len();
                assert(decreases_to!(*self => *fields));
                for i in 0..n
                    invariant
                        decreases_to!(*self => *fields),
                        n == fields.entry_seq().len(),
                        fields.wf(),
                        out.entry_seq().len() == i,
                        forall|j: int| 0 <= j < i ==> (#[trigger] out.entry_seq()[j]).0 == fields.entry_seq()[j].0,
                        forall|j: int| 0 <= j < i ==> value_model((#[trigger] out.entry_seq()[j]).1) == value_model(fields.entry_seq()[j].1),
                {
                    let key = fields.key_at(i).clone();
                    proof {
                        fields.lemma_unique(i as int);
                        fields.lemma_value_decreases(fields.key_seq()[i as int]);
                        if i > 0 {
                            assert(out.key_seq().last() == fields.key_seq()[i - 1]);
                        }
                    }
                    let value = fields.value_at(i).duplicate();
                    out.push_last(key, value);
                }
                proof {
                    assert(out.key_seq() =~= fields.key_seq());
                }
                proof {
                    use_type_invariant(&out);
                }
                let r = EcsValue::Object(out);
                proof {
                    let a = value_model(r);
                    let b = value_model(*self);
                    assert forall|k: Seq<char>| out@.contains_key(k) implies value_model(out@[k]) == value_model(fields@[k]) by {
                        let p = index_of_key(fields.key_seq(), k);
                        fields.lemma_unique(p);
                        out.lemma_unique(p);
                    }
                    assert(a->Object_0 =~= b->Object_0);
                }
                r
            },
        }
    }
}

} // verus!

verus! {

/// The content of a map of named values (components, resources, object fields).
pub open spec fn fields_model(m: NameMap<EcsValue>) -> Map<Seq<char>, ValueModel> {
    Map::new(|k: Seq<char>| m@.contains_key(k), |k: Seq<char>| value_model(m@[k]))
}

/// A copy of a map of named values with the same content.
pub fn duplicate_fields(m: &NameMap<EcsValue>) -> (r: NameMap<EcsValue>)
    ensures
        fields_model(r) == fields_model(*m),
{
    proof { use_type_invariant(m); }
    let mut out: NameMap<EcsValue> = NameMap::new();
    let n = m.len();
    for i in 0..n
        invariant
            n == m.entry_seq().len(),
            m.wf(),
            out.entry_seq().len() == i,
            forall|j: int| 0 <= j < i ==> (#[trigger] out.entry_seq()[j]).0 == m.entry_seq()[j].0,
            forall|j: int| 0 <= j < i ==> value_model((#[trigger] out.entry_seq()[j]).1) == value_model(m.entry_seq()[j].1),
    {
        let key = m.key_at(i).clone();
        proof {
            m.lemma_unique(i as int);
            if i > 0 {
                assert(out.key_seq().last() == m.key_seq()[i - 1]);
            }
        }
        let value = m.value_at(i).duplicate();
        out.push_last(key, value);
    }
    proof {
        assert(out.key_seq() =~= m.key_seq());
        use_type_invariant(&out);
        assert forall|k: Seq<char>| out@.contains_key(k) implies value_model(out@[k]) == value_model(m@[k]) by {
            let p = index_of_key(m.key_seq(), k);
            m.lemma_unique(p);
            out.lemma_unique(p);
        }
        assert(fields_model(out) =~= fields_model(*m));
    }
    out
}

} // verus!

verus! {

/// Whether an `f64` bit pattern is a NaN.
pub open spec fn is_nan_bits(a: u64) -> bool {
    (a >> 52u64) & 0x7ffu64 == 0x7ffu64 && a & 0xf_ffff_ffff_ffffu64 != 0
}

/// Whether two `f64` bit patterns are equal as `f64`s: a NaN equals
/// nothing, and `0.0` equals `-0.0`.
pub open spec fn number_eq(a: u64, b: u64) -> bool {
    ||| (a == b && !is_nan_bits(a))
    ||| (a & 0x7fff_ffff_ffff_ffffu64 == 0 && b & 0x7fff_ffff_ffff_ffffu64 == 0)
}

/// Equality of values, as `==` on their numbers (`f64` equality), strings,
/// items in order, and fields by name.
pub open spec fn values_eq(a: EcsValue, b: EcsValue) -> bool
    decreases a,
{
    match (a, b) {
        (EcsValue::Null, EcsValue::Null) => true,
        (EcsValue::Bool(x), EcsValue::Bool(y)) => x == y,
        (EcsValue::Number(x), EcsValue::Number(y)) => number_eq(x, y),
        (EcsValue::String(x), EcsValue::String(y)) => x@ == y@,
        (EcsValue::Array(x), EcsValue::Array(y)) => {
            &&& x@.len() == y@.len()
            &&& forall|i: int| 0 <= i < x@.len() ==> {
                proof {
                    assert(decreases_to!(a => a->Array_0));
                    assert(decreases_to!(x => x@));
                    assert(decreases_to!(x@ => x@[i]));
                }
                values_eq(#[trigger] x@[i], y@[i])
            }
        },
        (EcsValue::Object(x), EcsValue::Object(y)) => {
            &&& x@.dom() == y@.dom()
            &&& forall|k: Seq<char>| #[trigger] x@.contains_key(k) ==> {
                proof {
                    assert(decreases_to!(a => a->Object_0));
                    x.lemma_value_decreases(k);
                }
                values_eq(x@[k], y@[k])
            }
        },
        _ => false,
    }
}

proof fn lemma_values_eq_array(x: Vec<EcsValue>, y: Vec<EcsValue>)
    ensures
        values_eq(EcsValue::Array(x), EcsValue::Array(y)) <==> x@.len() == y@.len()
            && forall|i: int| 0 <= i < x@.len() ==> values_eq(#[trigger] x@[i], y@[i]),
{
    let a = EcsValue::Array(x);
    if values_eq(a, EcsValue::Array(y)) {
        assert forall|i: int| 0 <= i < x@.len() implies values_eq(#[trigger] x@[i], y@[i]) by {
            assert(decreases_to!(a => a->Array_0));
            assert(decreases_to!(x => x@));
            assert(decreases_to!(x@ => x@[i]));
        }
    }
}

proof fn lemma_values_eq_object(x: NameMap<EcsValue>, y: NameMap<EcsValue>)
    ensures
        values_eq(EcsValue::Object(x), EcsValue::Object(y)) <==> x@.dom() == y@.dom()
            && forall|k: Seq<char>| #[trigger] x@.contains_key(k) ==> values_eq(x@[k], y@[k]),
{
    let a = EcsValue::Object(x);
    if values_eq(a, EcsValue::Object(y)) {
        assert forall|k: Seq<char>| #[trigger] x@.contains_key(k) implies values_eq(x@[k], y@[k]) by {
            assert(decreases_to!(a => a->Object_0));
            x.lemma_value_decreases(k);
        }
    }
}

fn numbers_equal(a: u64, b: u64) -> (r: bool)
    ensures
        r == number_eq(a, b),
{
    let nan = (a >> 52u64) & 0x7ffu64 == 0x7ffu64 && a & 0xf_ffff_ffff_ffffu64 != 0;
    (a == b && !nan) || (a & 0x7fff_ffff_ffff_ffffu64 == 0 && b & 0x7fff_ffff_ffff_ffffu64 == 0)
}

/// Whether two values are equal (see [`values_eq`]).
pub fn values_equal(a: &EcsValue, b: &EcsValue) -> (r: bool)
    ensures
        r == values_eq(*a, *b),
    decreases a,
{
    match (a, b) {
        (EcsValue::Null, EcsValue::Null) => true,
        (EcsValue::Bool(x), EcsValue::Bool(y)) => *x == *y,
        (EcsValue::Number(x), EcsValue::Number(y)) => numbers_equal(*x, *y),
        (EcsValue::String(x), EcsValue::String(y)) => crate::host::str_equal(x.as_str(), y.as_str()),
        (EcsValue::Array(x), EcsValue::Array(y)) => {
            proof { lemma_values_eq_array(*x, *y); }
            if x.len() != y.len() {
                return false;
            }
            let n = x.len();
            assert(decreases_to!(*a => *x));
            for i in 0..n
                invariant
                    n == x@.len(),
                    n == y@.len(),
                    decreases_to!(*a => *x),
                    values_eq(*a, *b) <==> forall|j: int| 0 <= j < x@.len() ==> values_eq(#[trigger] x@[j], y@[j]),
                    forall|j: int| 0 <= j < i ==> values_eq(#[trigger] x@[j], y@[j]),
            {
                assert(decreases_to!(*x => x@));
                assert(decreases_to!(x@ => x@[i as int]));
                if !values_equal(&x[i], &y[i]) {
                    return false;
                }
            }
            true
        },
        (EcsValue::Object(x), EcsValue::Object(y)) => {
            proof {
                lemma_values_eq_object(*x, *y);
                use_type_invariant(x);
                use_type_invariant(y);
                x.lemma_len();
                y.lemma_len();
            }
            if x.len() != y.len() {
                proof {
                    if x@.dom() == y@.dom() {
                        assert(x@.len() == y@.len());
                    }
                }
                return false;
            }
            let n = x.len();
            assert(decreases_to!(*a => *x));
            for i in 0..n
                invariant
                    n == x.key_seq().len(),
                    x.wf(),
                    y.wf(),
                    x@.dom() == x.key_seq().to_set(),
                    x@.dom().finite(),
                    y@.dom().finite(),
                    x@.len() == y@.len(),
                    decreases_to!(*a => *x),
                    values_eq(*a, *b) <==> x@.dom() == y@.dom()
                        && forall|k: Seq<char>| #[trigger] x@.contains_key(k) ==> values_eq(x@[k], y@[k]),
                    forall|j: int| 0 <= j < i ==> y@.contains_key(#[trigger] x.key_seq()[j])
                        && values_eq(x@[x.key_seq()[j]], y@[x.key_seq()[j]]),
            {
                proof {
                    x.lemma_unique(i as int);
                    x.lemma_value_decreases(x.key_seq()[i as int]);
                }
                let key = x.key_at(i);
                match y.get(key.as_str()) {
                    None => {
                        proof {
                            assert(x@.contains_key(key@));
                        }
                        return false;
                    },
                    Some(other) => {
                        if !values_equal(x.value_at(i), other) {
                            return false;
                        }
                    },
                }
            }
            proof {
                assert forall|k: Seq<char>| #[trigger] x@.contains_key(k) implies
                    y@.contains_key(k) && values_eq(x@[k], y@[k]) by {
                    assert(x.key_seq().to_set().contains(k));
                    let j = index_of_key(x.key_seq(), k);
                    assert(x.key_seq()[j] == k);
                }
                assert(x@.dom().subset_of(y@.dom()));
                vstd::set_lib::lemma_subset_equality(x@.dom(), y@.dom());
            }
            true
        },
        _ => false,
    }
}

impl PartialEq for EcsValue {
    fn eq(&self, other: &Self) -> (r: bool) {
        values_equal(self, other)
    }
}

impl PartialEqSpecImpl for EcsValue {
    open spec fn obeys_eq_spec() -> bool {
        true
    }

    open spec fn eq_spec(&self, other: &EcsValue) -> bool {
        values_eq(*self, *other)
    }
}

} // verus!
