//! Validity of script-facing names: entity ids, component names and resource names.

use vstd::prelude::*;

verus! {

/// The longest key, in UTF-8 bytes, that the runtime accepts.
pub const MAX_KEY_LENGTH: usize = 128;

/// Unicode general category `Cc`: U+0000..=U+001F and U+007F..=U+009F.
pub open spec fn is_control_spec(c: char) -> bool {
    let u = c as u32;
    u <= 0x1f || (0x7f <= u && u <= 0x9f)
}

/// Whether a key is accepted: not empty, at most `MAX_KEY_LENGTH` bytes, and
/// free of control characters.
pub open spec fn valid_key_spec(key: Seq<char>) -> bool {
    &&& key.len() > 0
    &&& vstd::utf8::encode_utf8(key).len() <= MAX_KEY_LENGTH
    &&& forall|i: int| 0 <= i < key.len() ==> !is_control_spec(#[trigger] key[i])
}

/// Whether `c` is a control character (category `Cc`).
pub fn is_control(c: char) -> (r: bool)
    ensures
        r == is_control_spec(c),
{
    let u = c as u32;
    u <= 0x1f || (0x7f <= u && u <= 0x9f)
}

/// Checks a script-facing key.
pub fn valid_key(key: &str) -> (r: bool)
    ensures
        r == valid_key_spec(key@),
{
    if key.is_empty() || key.as_bytes().len() > MAX_KEY_LENGTH {
        return false;
    }
    for c in it: key.chars()
        invariant
            it.seq() == key@,
            forall|i: int| 0 <= i < it.index() ==> !is_control_spec(#[trigger] key@[i]),
    {
        if is_control(c) {
            return false;
        }
    }
    proof {
        assert(forall|i: int| 0 <= i < key@.len() ==> !is_control_spec(#[trigger] key@[i]));
    }
    true
}

} // verus!
