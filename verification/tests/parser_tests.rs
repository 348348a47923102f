//! Tuple arity and argument normalisation.

use soroban_debugger::parser::normalize_args_for_function;
use soroban_debugger::parser::tuple_arity_from_type_name;
use soroban_debugger::parser::SpecFunction;
use soroban_debugger::parser::SpecParam;
use soroban_debugger::DebuggerError;

fn spec_fn(name: &str, params: Vec<(&str, &str)>) -> SpecFunction {
    SpecFunction {
        name: name.to_string(),
        params: params
            .into_iter()
            .map(|(n, t)| SpecParam { name: n.to_string(), ty_name: t.to_string() })
            .collect(),
    }
}

#[test]
fn tuple_arity_counts_top_level_types() {
    assert_eq!(tuple_arity_from_type_name("Tuple<U32, Symbol>"), Some(2));
    assert_eq!(
        tuple_arity_from_type_name("Tuple<U32, Option<Vec<Symbol>>, Map<U32, String>>"),
        Some(3)
    );
}

#[test]
fn tuple_arity_zero_for_empty() {
    assert_eq!(tuple_arity_from_type_name("Tuple<>"), Some(0));
    assert_eq!(tuple_arity_from_type_name("Tuple<  >"), Some(0));
}

#[test]
fn tuple_arity_returns_none_for_bad_prefix() {
    assert_eq!(tuple_arity_from_type_name("Vec<U32>"), None);
}

#[test]
fn option_argument_gains_the_typed_envelope() {
    let sigs = vec![spec_fn("f", vec![("x", "Option<u32>")])];
    let out = normalize_args_for_function(&sigs, "f", "[null]").unwrap();
    assert_eq!(out, "[{\"type\":\"option\",\"value\":null}]");
}

#[test]
fn option_argument_already_annotated_passes_through() {
    let sigs = vec![spec_fn("f", vec![("x", "Option<u32>")])];
    let once = normalize_args_for_function(&sigs, "f", "[null]").unwrap();
    let twice = normalize_args_for_function(&sigs, "f", &once).unwrap();
    assert_eq!(once, twice);
}

#[test]
fn tuple_arity_mismatch_is_rejected() {
    let sigs = vec![spec_fn("f", vec![("x", "Tuple<u32,u32>")])];
    let err = normalize_args_for_function(&sigs, "f", "[[1,2,3]]").unwrap_err();
    match err {
        DebuggerError::InvalidArguments(m) => {
            assert!(m.contains("Tuple arity mismatch: expected 2, got 3"), "message: {}", m);
        }
        other => panic!("unexpected error: {:?}", other),
    }
}

#[test]
fn tuple_argument_gains_arity_and_envelope() {
    let sigs = vec![spec_fn("f", vec![("x", "Tuple<u32,u32>")])];
    let out = normalize_args_for_function(&sigs, "f", "[[1,2]]").unwrap();
    assert_eq!(out, "[{\"arity\":2,\"type\":\"tuple\",\"value\":[1,2]}]");
}

#[test]
fn unknown_function_passes_arguments_through() {
    let sigs = vec![spec_fn("f", vec![("x", "Option<u32>")])];
    let out = normalize_args_for_function(&sigs, "g", "[null]").unwrap();
    assert_eq!(out, "[null]");
}

#[test]
fn invalid_json_is_rejected() {
    let sigs = vec![spec_fn("f", vec![("x", "Option<u32>")])];
    let err = normalize_args_for_function(&sigs, "f", "[null").unwrap_err();
    assert!(matches!(err, DebuggerError::InvalidArguments(_)));
}
