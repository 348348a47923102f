//! The signature diff and the compatibility report.

use soroban_debugger::upgrade::BreakingChange;
use soroban_debugger::upgrade::FunctionSignature;
use soroban_debugger::upgrade::NonBreakingChange;
use soroban_debugger::upgrade::UpgradeAnalyzer;
use soroban_debugger::upgrade::WasmType;

fn sig(name: &str, params: Vec<WasmType>, results: Vec<WasmType>) -> FunctionSignature {
    FunctionSignature { name: name.to_string(), params, results }
}

#[test]
fn test_diff_signatures_no_changes() {
    let s = sig("test", vec![WasmType::I32], vec![WasmType::Unknown]);
    let (breaking, non_breaking) =
        UpgradeAnalyzer::diff_signatures(std::slice::from_ref(&s), std::slice::from_ref(&s));
    assert!(breaking.is_empty());
    assert!(non_breaking.is_empty());
    assert!(breaking.len() + non_breaking.len() == 0);
}

#[test]
fn test_diff_signatures_add_remove() {
    let sig1 = sig("foo", vec![], vec![]);
    let sig2 = sig("bar", vec![], vec![]);
    let (breaking, non_breaking) =
        UpgradeAnalyzer::diff_signatures(std::slice::from_ref(&sig1), std::slice::from_ref(&sig2));
    assert_eq!(breaking.len(), 1);
    assert!(matches!(&breaking[0], BreakingChange::FunctionRemoved { name } if name == "foo"));
    assert_eq!(non_breaking.len(), 1);
    assert!(matches!(&non_breaking[0], NonBreakingChange::FunctionAdded { name } if name == "bar"));
}

#[test]
fn diff_reports_parameter_and_return_changes() {
    let old = vec![
        sig("foo", vec![WasmType::I32], vec![]),
        sig("bar", vec![], vec![WasmType::I64]),
    ];
    let new = vec![sig("foo", vec![WasmType::I64], vec![]), sig("baz", vec![], vec![])];
    let (breaking, non_breaking) = UpgradeAnalyzer::diff_signatures(&old, &new);
    assert_eq!(breaking.len(), 2);
    assert!(matches!(
        &breaking[0],
        BreakingChange::ParameterTypeChanged { name, index: 0, old_type: WasmType::I32, new_type: WasmType::I64 }
            if name == "foo"
    ));
    assert!(matches!(&breaking[1], BreakingChange::FunctionRemoved { name } if name == "bar"));
    assert_eq!(non_breaking.len(), 1);
    assert!(matches!(&non_breaking[0], NonBreakingChange::FunctionAdded { name } if name == "baz"));
}

#[test]
fn diff_reports_parameter_count_change_without_per_type_detail() {
    let old = vec![sig("f", vec![WasmType::I32, WasmType::I32], vec![])];
    let new = vec![sig("f", vec![WasmType::I64], vec![])];
    let (breaking, non_breaking) = UpgradeAnalyzer::diff_signatures(&old, &new);
    assert_eq!(breaking.len(), 1);
    assert!(matches!(
        &breaking[0],
        BreakingChange::ParameterCountChanged { name, old_count: 2, new_count: 1 } if name == "f"
    ));
    assert!(non_breaking.is_empty());
}

#[test]
fn wasm_type_renders_lowercase() {
    assert_eq!(WasmType::I32.render(), "i32");
    assert_eq!(WasmType::FuncRef.render(), "funcref");
    assert_eq!(WasmType::Unknown.render(), "?");
}

#[test]
fn removal_in_one_direction_is_addition_in_the_other() {
    let old = vec![sig("alpha", vec![], vec![]), sig("beta", vec![], vec![])];
    let new = vec![sig("beta", vec![], vec![])];
    let (breaking, _) = UpgradeAnalyzer::diff_signatures(&old, &new);
    let (_, non_breaking_rev) = UpgradeAnalyzer::diff_signatures(&new, &old);
    assert!(matches!(&breaking[0], BreakingChange::FunctionRemoved { name } if name == "alpha"));
    assert!(matches!(
        &non_breaking_rev[0],
        NonBreakingChange::FunctionAdded { name } if name == "alpha"
    ));
}

#[test]
fn changes_render_with_their_markers() {
    let c = BreakingChange::ParameterTypeChanged {
        name: "foo".to_string(),
        index: 0,
        old_type: WasmType::I32,
        new_type: WasmType::I64,
    };
    assert_eq!(c.render(), "[PARAM_TYPE] foo param[0]: i32 -> i64");
    let r = BreakingChange::ReturnTypeChanged {
        name: "bar".to_string(),
        old_types: vec![WasmType::I64],
        new_types: vec![],
    };
    assert_eq!(r.render(), "[RETURN_TYPE] bar: [i64] -> []");
    let p = BreakingChange::ParameterCountChanged {
        name: "f".to_string(),
        old_count: 2,
        new_count: 1,
    };
    assert_eq!(p.render(), "[PARAMS_CHANGED] f: 2 params -> 1 params");
    let a = NonBreakingChange::FunctionAdded { name: "baz".to_string() };
    assert_eq!(a.render(), "[ADDED] baz");
    let s = sig("add", vec![WasmType::I32, WasmType::I32], vec![WasmType::I64]);
    assert_eq!(s.render(), "add(i32, i32) -> [i64]");
}
