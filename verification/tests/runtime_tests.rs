//! Runtime records: outcome classification, storage snapshots and diffs,
//! the memory tracker, the mock registry, and the error catalogue.

use soroban_debugger::hostval::HostValue;
use soroban_debugger::kv::StrMap;
use soroban_debugger::runtime::check_function_exists;
use soroban_debugger::runtime::diff_storage;
use soroban_debugger::runtime::format_invocation_result;
use soroban_debugger::runtime::parse_mock_spec;
use soroban_debugger::runtime::restore_storage;
use soroban_debugger::runtime::extract_strkey_token;
use soroban_debugger::runtime::snapshot_storage;
use soroban_debugger::runtime::ErrorDatabase;
use soroban_debugger::runtime::InvokeOutcome;
use soroban_debugger::runtime::MemoryTracker;
use soroban_debugger::runtime::MockRegistry;
use soroban_debugger::DebuggerError;

fn storage(pairs: &[(&str, &str)]) -> StrMap<String> {
    let mut m = StrMap::new();
    for (k, v) in pairs {
        m.insert(k.to_string(), v.to_string());
    }
    m
}

#[test]
fn successful_outcome_keeps_value_and_display() {
    let db = ErrorDatabase::new();
    let (display, record, note) = format_invocation_result(
        InvokeOutcome::Value {
            debug_text: "I64(42)".to_string(),
            serialized: Ok("{\"type\":\"i64\",\"value\":42}".to_string()),
        },
        &db,
    );
    assert_eq!(display.unwrap(), "I64(42)");
    assert_eq!(record.unwrap(), "{\"type\":\"i64\",\"value\":42}");
    assert!(note.is_none());
}

#[test]
fn contract_error_outcome_reports_code_and_catalogue_note() {
    let mut db = ErrorDatabase::new();
    db.add_error(7, "InsufficientBalance".to_string(), "balance too low".to_string());
    let (display, record, note) =
        format_invocation_result(InvokeOutcome::ContractError { code: 7 }, &db);
    let msg = display.unwrap_err();
    assert_eq!(
        msg,
        "The contract returned an error code: 7. This typically indicates a business logic failure (e.g. `panic!` or `require!`)."
    );
    assert_eq!(record.unwrap_err(), msg);
    assert_eq!(note.unwrap(), "InsufficientBalance: balance too low");
}

#[test]
fn aborted_outcome_reports_the_abort() {
    let db = ErrorDatabase::new();
    let (display, _, note) = format_invocation_result(InvokeOutcome::Aborted, &db);
    assert_eq!(
        display.unwrap_err(),
        "Contract execution was aborted. This could be due to a trap, budget exhaustion, or an explicit abort call."
    );
    assert!(note.is_none());
}

#[test]
fn storage_diff_classifies_added_removed_changed() {
    let before = storage(&[("a", "1"), ("b", "2"), ("c", "3")]);
    let after = storage(&[("b", "2"), ("c", "9"), ("d", "4")]);
    let diff = diff_storage(&before, &after);
    assert_eq!(diff.added, vec!["d".to_string()]);
    assert_eq!(diff.removed, vec!["a".to_string()]);
    assert_eq!(diff.changed, vec!["c".to_string()]);
}

#[test]
fn storage_diff_is_empty_between_equal_snapshots() {
    let a = storage(&[("k", "v")]);
    let b = storage(&[("k", "v")]);
    let diff = diff_storage(&a, &b);
    assert!(diff.added.is_empty() && diff.removed.is_empty() && diff.changed.is_empty());
}

#[test]
fn snapshot_then_mutate_then_restore_leaves_no_trace() {
    let mut st = storage(&[("counter", "1"), ("owner", "alice")]);
    let snap = snapshot_storage(&st);
    st.insert("counter".to_string(), "99".to_string());
    st.insert("extra".to_string(), "x".to_string());
    st.remove("owner");
    restore_storage(&mut st, &snap);
    assert_eq!(st.get("counter").unwrap(), "1");
    assert_eq!(st.get("owner").unwrap(), "alice");
    assert!(st.get("extra").is_none());
    let diff = diff_storage(&snap.storage, &st);
    assert!(diff.added.is_empty() && diff.removed.is_empty() && diff.changed.is_empty());
}

#[test]
fn memory_tracker_levels_never_decrease() {
    let mut t = MemoryTracker::new(100);
    t.record_snapshot("start", 120);
    t.record_snapshot("dip", 90);
    t.record_snapshot("peak", 400);
    assert_eq!(t.peak(), 400);
    assert_eq!(t.snapshots[1].1, 120);
}

#[test]
fn mock_registry_dispatches_and_logs() {
    let mut reg = MockRegistry::new();
    reg.add_response(
        "CCONTRACT123456".to_string(),
        "get_price".to_string(),
        HostValue::I64(1100000),
    );
    {
        let v = reg
            .dispatch("CCONTRACT123456", "get_price", vec!["XLM".to_string()])
            .unwrap();
        assert_eq!(v, &HostValue::I64(1100000));
    }
    assert_eq!(reg.call_count(), 1);
    let e = reg.dispatch("CCONTRACT123456", "set_price", vec![]).unwrap_err();
    assert!(matches!(e, DebuggerError::MockNotFound(c, f) if c == "CCONTRACT123456" && f == "set_price"));
    assert_eq!(reg.call_count(), 1);
}

#[test]
fn mock_specs_parse_and_validate() {
    let (c, f, v) =
        parse_mock_spec("CCONTRACT123456:get_price={\"type\":\"i64\",\"value\":7}").unwrap();
    assert_eq!(c, "CCONTRACT123456");
    assert_eq!(f, "get_price");
    assert_eq!(v, HostValue::I64(7));
    assert!(parse_mock_spec("short:f=1").is_err());
    assert!(parse_mock_spec("CCONTRACT123456:9bad=1").is_err());
    assert!(parse_mock_spec("no separators").is_err());
}

#[test]
fn execute_gate_rejects_unknown_functions() {
    // an empty module exporting nothing
    let b = vec![0x00, 0x61, 0x73, 0x6d, 0x01, 0x00, 0x00, 0x00];
    let e = check_function_exists(&b, "increment").unwrap_err();
    assert!(matches!(e, DebuggerError::InvalidFunction(f) if f == "increment"));
    let bad = vec![1, 2, 3];
    assert!(matches!(
        check_function_exists(&bad, "increment").unwrap_err(),
        DebuggerError::InvalidBinary
    ));
}

#[test]
fn strkey_token_is_found_in_debug_text() {
    assert_eq!(
        extract_strkey_token("Address(Account(GABCDEFGHIJKLMNOP))").unwrap(),
        "GABCDEFGHIJKLMNOP"
    );
    assert_eq!(
        extract_strkey_token("Contract(CCONTRACT0001)").unwrap(),
        "CCONTRACT0001"
    );
    // short tokens and tokens with other openings are passed over
    assert!(extract_strkey_token("Address(GSHORT, other_words)").is_none());
    assert!(extract_strkey_token("no tokens here").is_none());
}
