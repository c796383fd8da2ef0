use bevy_mod_scripting_bindings::InteropError;
use bevy_runeweave::interop::interop_error;

#[test]
fn interop_errors_carry_their_message() {
    let error = interop_error("table keys must be strings".to_owned());
    assert!(matches!(error, InteropError::External(_)));
    assert!(error.to_string().contains("table keys must be strings"));
    let again = interop_error("table keys must be strings".to_owned());
    assert_eq!(again.to_string(), error.to_string());
}
