//! Breakpoint conditions: parsing, rendering, evaluation.


use soroban_debugger::breakpoint::find_operator;
use soroban_debugger::breakpoint::split_op_value;
use soroban_debugger::breakpoint::BreakpointManager;
use soroban_debugger::breakpoint::Condition;
use soroban_debugger::breakpoint::Operator;
use soroban_debugger::kv::StrMap;

fn storage(pairs: &[(&str, &str)]) -> StrMap<String> {
    let mut m = StrMap::new();
    for (k, v) in pairs {
        m.insert(k.to_string(), v.to_string());
    }
    m
}

#[test]
fn storage_condition_parses() {
    let c = BreakpointManager::parse_condition("storage[counter] >= 10").unwrap();
    assert_eq!(
        c,
        Condition::Storage {
            key: "counter".to_string(),
            operator: Operator::Ge,
            value: "10".to_string(),
        }
    );
}

#[test]
fn argument_condition_parses() {
    let c = BreakpointManager::parse_condition("amount > 100").unwrap();
    assert_eq!(
        c,
        Condition::Argument {
            name: "amount".to_string(),
            operator: Operator::Gt,
            value: "100".to_string(),
        }
    );
}

#[test]
fn condition_without_operator_is_rejected() {
    let e = BreakpointManager::parse_condition("just words").unwrap_err();
    assert_eq!(e, "No operator found (use ==, !=, >, <, >=, <=)");
}

#[test]
fn storage_condition_without_bracket_is_rejected() {
    let e = BreakpointManager::parse_condition("storage[counter >= 10").unwrap_err();
    assert_eq!(e, "Missing closed bracket ']' in storage condition");
}

#[test]
fn condition_roundtrips_through_its_text() {
    let texts = ["storage[counter] >= 10", "amount > 100", "owner == alice"];
    for t in texts {
        let c = BreakpointManager::parse_condition(t).unwrap();
        assert_eq!(c.render(), *t);
        let again = BreakpointManager::parse_condition(&c.render()).unwrap();
        assert_eq!(again, c);
    }
}

#[test]
fn storage_condition_evaluates_numerically_then_lexicographically() {
    let mut mgr = BreakpointManager::new();
    let cond = BreakpointManager::parse_condition("storage[counter] >= 10").unwrap();
    mgr.add("increment", Some(cond));
    assert!(mgr.should_break("increment", &storage(&[("counter", "10")]), None));
    assert!(!mgr.should_break("increment", &storage(&[("counter", "9")]), None));
    // "apple" does not read as a number, so the comparison is lexicographic:
    // "apple" < "10" is false, hence >= holds and the evaluator breaks.
    assert!(mgr.should_break("increment", &storage(&[("counter", "apple")]), None));
}

#[test]
fn argument_condition_reads_the_argument_document() {
    let mut mgr = BreakpointManager::new();
    let cond = BreakpointManager::parse_condition("amount > 100").unwrap();
    mgr.add("transfer", Some(cond));
    let st = storage(&[]);
    assert!(mgr.should_break("transfer", &st, Some("{\"amount\": 150}")));
    assert!(!mgr.should_break("transfer", &st, Some("{\"amount\": 50}")));
    assert!(!mgr.should_break("transfer", &st, Some("{\"other\": 150}")));
    assert!(!mgr.should_break("transfer", &st, None));
}

#[test]
fn unconditional_breakpoint_always_breaks() {
    let mut mgr = BreakpointManager::new();
    mgr.add("init", None);
    assert!(mgr.should_break("init", &storage(&[]), None));
    assert!(!mgr.should_break("other", &storage(&[]), None));
}

#[test]
fn manager_add_remove_list_count() {
    let mut mgr = BreakpointManager::new();
    assert!(mgr.is_empty());
    mgr.add("a", None);
    mgr.add("b", None);
    mgr.add("a", None);
    assert_eq!(mgr.count(), 2);
    let names: Vec<String> = mgr.list().iter().map(|b| b.function.clone()).collect();
    assert!(names.contains(&"a".to_string()) && names.contains(&"b".to_string()));
    assert!(mgr.remove("a"));
    assert!(!mgr.remove("a"));
    assert_eq!(mgr.count(), 1);
    mgr.clear();
    assert!(mgr.is_empty());
}

#[test]
fn compare_values_covers_all_operators() {
    let mgr = BreakpointManager::new();
    assert!(mgr.compare_values("10", "9", Operator::Gt));
    assert!(mgr.compare_values("9", "10", Operator::Lt));
    assert!(mgr.compare_values("10", "10", Operator::Eq));
    assert!(mgr.compare_values("10", "9", Operator::Ne));
    assert!(mgr.compare_values("10", "10", Operator::Ge));
    assert!(mgr.compare_values("-5", "3", Operator::Le));
    // lexicographic fallback
    assert!(mgr.compare_values("apple", "banana", Operator::Lt));
    assert!(mgr.compare_values("pear", "peach", Operator::Gt));
}

#[test]
fn find_operator_prefers_two_character_operators() {
    assert_eq!(find_operator("a >= b"), Some((">=", 2)));
    assert_eq!(find_operator("a > b"), Some((">", 2)));
    assert_eq!(find_operator("x != 3"), Some(("!=", 2)));
    assert_eq!(find_operator("nothing here"), None);
}

#[test]
fn split_op_value_reads_the_leading_operator() {
    assert_eq!(
        split_op_value(">= 10").unwrap(),
        (Operator::Ge, "10".to_string())
    );
    assert_eq!(
        split_op_value("==  apple ").unwrap(),
        (Operator::Eq, "apple".to_string())
    );
    assert_eq!(
        split_op_value("no operator").unwrap_err(),
        "Invalid operator in condition: no operator"
    );
}
