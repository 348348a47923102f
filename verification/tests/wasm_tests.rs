//! The bytecode reader and the analyser on hand-assembled binaries.

use soroban_debugger::upgrade::BreakingChange;
use soroban_debugger::upgrade::NonBreakingChange;
use soroban_debugger::upgrade::UpgradeAnalyzer;
use soroban_debugger::upgrade::WasmType;
use soroban_debugger::wasm::parse_function_signatures;
use soroban_debugger::wasm::parse_functions;
use soroban_debugger::DebuggerError;

/// Assemble a module: each function is a name with parameter and result
/// type tag bytes. Counts stay below 128 so every integer is one byte.
fn module(funcs: &[(&str, &[u8], &[u8])]) -> Vec<u8> {
    let mut b = vec![0x00, 0x61, 0x73, 0x6d, 0x01, 0x00, 0x00, 0x00];
    // type section: one functype per function
    let mut types = vec![funcs.len() as u8];
    for (_, params, results) in funcs {
        types.push(0x60);
        types.push(params.len() as u8);
        types.extend_from_slice(params);
        types.push(results.len() as u8);
        types.extend_from_slice(results);
    }
    b.push(1);
    b.push(types.len() as u8);
    b.extend_from_slice(&types);
    // function section: function i has type i
    let mut fsec = vec![funcs.len() as u8];
    for i in 0..funcs.len() {
        fsec.push(i as u8);
    }
    b.push(3);
    b.push(fsec.len() as u8);
    b.extend_from_slice(&fsec);
    // export section
    let mut esec = vec![funcs.len() as u8];
    for (i, (name, _, _)) in funcs.iter().enumerate() {
        esec.push(name.len() as u8);
        esec.extend_from_slice(name.as_bytes());
        esec.push(0x00);
        esec.push(i as u8);
    }
    b.push(7);
    b.push(esec.len() as u8);
    b.extend_from_slice(&esec);
    b
}

#[test]
fn exported_names_are_read_in_order() {
    let b = module(&[("increment", &[], &[0x7e]), ("reset", &[0x7f], &[])]);
    let names = parse_functions(&b).unwrap();
    assert_eq!(names, vec!["increment".to_string(), "reset".to_string()]);
}

#[test]
fn signatures_join_types_and_exports() {
    let b = module(&[("increment", &[], &[0x7e]), ("add", &[0x7f, 0x7f], &[0x7f])]);
    let sigs = parse_function_signatures(&b).unwrap();
    assert_eq!(sigs.len(), 2);
    assert_eq!(sigs[0].name, "increment");
    assert_eq!(sigs[0].params, vec![]);
    assert_eq!(sigs[0].results, vec![WasmType::I64]);
    assert_eq!(sigs[1].params, vec![WasmType::I32, WasmType::I32]);
}

#[test]
fn bad_leading_marker_is_invalid_binary() {
    let e = parse_functions(&[0x00, 0x61, 0x73]).unwrap_err();
    assert_eq!(e, DebuggerError::InvalidBinary);
    let e2 = parse_function_signatures(&[1, 2, 3, 4, 5, 6, 7, 8]).unwrap_err();
    assert_eq!(e2, DebuggerError::InvalidBinary);
}

#[test]
fn truncated_section_is_invalid_binary() {
    let mut b = module(&[("f", &[], &[])]);
    let n = b.len();
    b.truncate(n - 2);
    // the export section size now runs past the end
    assert_eq!(parse_functions(&b).unwrap_err(), DebuggerError::InvalidBinary);
}

#[test]
fn upgrade_analysis_classifies_changes() {
    let old = module(&[("foo", &[0x7f], &[]), ("bar", &[], &[0x7e])]);
    let new = module(&[("foo", &[0x7e], &[]), ("baz", &[], &[])]);
    let report = UpgradeAnalyzer::analyze(&old, &new, "old.wasm", "new.wasm", vec![]).unwrap();
    assert!(!report.is_compatible);
    assert_eq!(report.breaking_changes.len(), 2);
    assert!(matches!(
        &report.breaking_changes[0],
        BreakingChange::ParameterTypeChanged { name, index: 0, old_type: WasmType::I32, new_type: WasmType::I64 }
            if name == "foo"
    ));
    assert!(matches!(
        &report.breaking_changes[1],
        BreakingChange::FunctionRemoved { name } if name == "bar"
    ));
    assert_eq!(report.non_breaking_changes.len(), 1);
    assert!(matches!(
        &report.non_breaking_changes[0],
        NonBreakingChange::FunctionAdded { name } if name == "baz"
    ));
    assert_eq!(report.old_wasm_path, "old.wasm");
}

#[test]
fn analysing_a_binary_against_itself_finds_nothing() {
    let b = module(&[("foo", &[0x7f], &[]), ("bar", &[], &[0x7e])]);
    let report = UpgradeAnalyzer::analyze(&b, &b, "a.wasm", "a.wasm", vec![]).unwrap();
    assert!(report.is_compatible);
    assert!(report.breaking_changes.is_empty());
    assert!(report.non_breaking_changes.is_empty());
}
