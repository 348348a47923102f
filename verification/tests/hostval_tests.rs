//! The argument parser and host value serialisation.

use soroban_debugger::hostval::parse_args;
use soroban_debugger::hostval::parse_value;
use soroban_debugger::hostval::to_json;
use soroban_debugger::hostval::HostValue;
use soroban_debugger::json::json_parse;
use soroban_debugger::json::json_to_string;
use soroban_debugger::parser::SpecFunction;
use soroban_debugger::parser::SpecParam;
use soroban_debugger::DebuggerError;

fn parse_one(text: &str) -> Result<HostValue, DebuggerError> {
    let doc = json_parse(text).expect("valid JSON");
    let path: Vec<char> = "args".chars().collect();
    parse_value(&doc, &path)
}

#[test]
fn raw_primitives_parse_by_json_type() {
    assert_eq!(parse_one("null").unwrap(), HostValue::Void);
    assert_eq!(parse_one("true").unwrap(), HostValue::Bool(true));
    assert_eq!(parse_one("42").unwrap(), HostValue::I32(42));
    assert_eq!(parse_one("4294967296").unwrap(), HostValue::I64(4294967296));
    assert_eq!(parse_one("\"XLM\"").unwrap(), HostValue::Symbol("XLM".to_string()));
    assert_eq!(
        parse_one("\"not a symbol!\"").unwrap(),
        HostValue::Str("not a symbol!".to_string())
    );
}

#[test]
fn typed_envelopes_parse_by_tag() {
    assert_eq!(
        parse_one("{\"type\":\"u32\",\"value\":7}").unwrap(),
        HostValue::U32(7)
    );
    assert_eq!(
        parse_one("{\"type\":\"i128\",\"value\":\"-170141183460469231731687303715884105728\"}")
            .unwrap(),
        HostValue::I128(i128::MIN)
    );
    assert_eq!(
        parse_one("{\"type\":\"bytes\",\"value\":\"deadbeef\"}").unwrap(),
        HostValue::Bytes(vec![0xde, 0xad, 0xbe, 0xef])
    );
    assert_eq!(
        parse_one("{\"type\":\"address\",\"value\":\"GADMIN1234567890\"}").unwrap(),
        HostValue::Address("GADMIN1234567890".to_string())
    );
    assert_eq!(
        parse_one("{\"type\":\"option\",\"value\":null}").unwrap(),
        HostValue::OptVal(None)
    );
}

#[test]
fn integer_overflow_is_rejected() {
    assert!(matches!(
        parse_one("{\"type\":\"u32\",\"value\":4294967296}"),
        Err(DebuggerError::InvalidArguments(_))
    ));
    assert!(matches!(
        parse_one("{\"type\":\"u32\",\"value\":-1}"),
        Err(DebuggerError::InvalidArguments(_))
    ));
}

#[test]
fn odd_length_hex_is_rejected() {
    let e = parse_one("{\"type\":\"bytes\",\"value\":\"abc\"}").unwrap_err();
    assert!(matches!(e, DebuggerError::InvalidArguments(m) if m.contains("Invalid hex string")));
}

#[test]
fn short_address_is_rejected() {
    let e = parse_one("{\"type\":\"address\",\"value\":\"GSHORT\"}").unwrap_err();
    assert!(matches!(e, DebuggerError::InvalidArguments(m) if m.contains("Invalid address")));
}

#[test]
fn error_paths_name_the_offending_position() {
    let e = parse_one("{\"type\":\"vec\",\"value\":[1, [2]]}").unwrap_err();
    assert!(
        matches!(&e, DebuggerError::InvalidArguments(m) if m.contains("args[1]")),
        "got: {:?}",
        e
    );
}

#[test]
fn u256_strips_leading_zeros_and_checks_range() {
    assert_eq!(
        parse_one("{\"type\":\"u256\",\"value\":\"007\"}").unwrap(),
        HostValue::U256("7".to_string())
    );
    assert!(parse_one(
        "{\"type\":\"u256\",\"value\":\"115792089237316195423570985008687907853269984665640564039457584007913129639936\"}"
    )
    .is_err());
}

#[test]
fn serialised_values_parse_back_unchanged() {
    let values = vec![
        HostValue::Void,
        HostValue::Bool(false),
        HostValue::I64(-7),
        HostValue::U128(u128::MAX),
        HostValue::Symbol("XLM".to_string()),
        HostValue::Str("hello world".to_string()),
        HostValue::Bytes(vec![0, 255, 16]),
        HostValue::Address("CCONTRACT123456".to_string()),
        HostValue::OptVal(Some(Box::new(HostValue::U32(9)))),
        HostValue::List(vec![HostValue::I32(1), HostValue::I32(2)]),
        HostValue::Tuple(vec![HostValue::I32(1), HostValue::Bool(true)]),
        HostValue::MapVal(vec![(
            HostValue::Symbol("k".to_string()),
            HostValue::I64(5),
        )]),
    ];
    let path: Vec<char> = "args".chars().collect();
    for v in values {
        let j = to_json(&v);
        let round = parse_value(&j, &path).unwrap();
        assert_eq!(round, v, "through {}", json_to_string(&j));
    }
}

#[test]
fn parse_args_normalises_then_parses() {
    let sigs = vec![SpecFunction {
        name: "f".to_string(),
        params: vec![SpecParam { name: "x".to_string(), ty_name: "Option<u32>".to_string() }],
    }];
    let vs = parse_args(&sigs, "f", "[null]").unwrap();
    assert_eq!(vs, vec![HostValue::OptVal(None)]);
    let vs2 = parse_args(&sigs, "f", "[{\"type\":\"u32\",\"value\":3}]").unwrap();
    assert_eq!(vs2, vec![HostValue::U32(3)]);
}
