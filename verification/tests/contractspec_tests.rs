//! The contract-spec section reader: surface signatures and the error
//! catalogue, on hand-assembled sections.

use soroban_debugger::contractspec::parse_contract_spec;
use soroban_debugger::contractspec::parse_error_catalogue;
use soroban_debugger::parser::normalize_args_for_function;
use soroban_debugger::DebuggerError;

fn u32be(v: u32) -> Vec<u8> {
    v.to_be_bytes().to_vec()
}

fn xstr(s: &str) -> Vec<u8> {
    let mut out = u32be(s.len() as u32);
    out.extend_from_slice(s.as_bytes());
    while out.len() % 4 != 0 {
        out.push(0);
    }
    out
}

fn leb(mut v: u32) -> Vec<u8> {
    let mut out = Vec::new();
    loop {
        let byte = (v & 0x7f) as u8;
        v >>= 7;
        if v == 0 {
            out.push(byte);
            break;
        }
        out.push(byte | 0x80);
    }
    out
}

/// A function entry: documentation, name, inputs as (name, typedef bytes),
/// outputs as typedef bytes.
fn func_entry(name: &str, inputs: &[(&str, Vec<u8>)], outputs: &[Vec<u8>]) -> Vec<u8> {
    let mut e = u32be(0);
    e.extend(xstr(""));
    e.extend(xstr(name));
    e.extend(u32be(inputs.len() as u32));
    for (n, td) in inputs {
        e.extend(xstr(""));
        e.extend(xstr(n));
        e.extend_from_slice(td);
    }
    e.extend(u32be(outputs.len() as u32));
    for td in outputs {
        e.extend_from_slice(td);
    }
    e
}

/// An error enum entry with (name, value) cases.
fn error_enum_entry(name: &str, cases: &[(&str, &str, u32)]) -> Vec<u8> {
    let mut e = u32be(4);
    e.extend(xstr(""));
    e.extend(xstr(""));
    e.extend(xstr(name));
    e.extend(u32be(cases.len() as u32));
    for (n, doc, v) in cases {
        e.extend(xstr(doc));
        e.extend(xstr(n));
        e.extend(u32be(*v));
    }
    e
}

/// A struct entry the reader steps over.
fn struct_entry(name: &str, fields: &[(&str, Vec<u8>)]) -> Vec<u8> {
    let mut e = u32be(1);
    e.extend(xstr(""));
    e.extend(xstr(""));
    e.extend(xstr(name));
    e.extend(u32be(fields.len() as u32));
    for (n, td) in fields {
        e.extend(xstr(""));
        e.extend(xstr(n));
        e.extend_from_slice(td);
    }
    e
}

/// A module holding only the contract-spec custom section.
fn module_with_spec(entries: &[Vec<u8>]) -> Vec<u8> {
    let mut content = Vec::new();
    for e in entries {
        content.extend_from_slice(e);
    }
    let name = "contractspecv0";
    let mut payload = leb(name.len() as u32);
    payload.extend_from_slice(name.as_bytes());
    payload.extend_from_slice(&content);
    let mut b = vec![0x00, 0x61, 0x73, 0x6d, 0x01, 0x00, 0x00, 0x00];
    b.push(0);
    b.extend(leb(payload.len() as u32));
    b.extend_from_slice(&payload);
    b
}

fn td(code: u32) -> Vec<u8> {
    u32be(code)
}

fn td_option(inner: Vec<u8>) -> Vec<u8> {
    let mut t = u32be(1000);
    t.extend(inner);
    t
}

fn td_tuple(items: &[Vec<u8>]) -> Vec<u8> {
    let mut t = u32be(1005);
    t.extend(u32be(items.len() as u32));
    for i in items {
        t.extend_from_slice(i);
    }
    t
}

#[test]
fn spec_section_yields_surface_signatures() {
    let b = module_with_spec(&[
        struct_entry("PriceData", &[("price", td(7)), ("timestamp", td(6))]),
        func_entry(
            "set_price",
            &[("asset", td(17)), ("price", td(7)), ("maybe", td_option(td(4)))],
            &[td(2)],
        ),
        func_entry("pair", &[("p", td_tuple(&[td(4), td(17)]))], &[]),
    ]);
    let sigs = parse_contract_spec(&b).unwrap();
    assert_eq!(sigs.len(), 2);
    assert_eq!(sigs[0].name, "set_price");
    assert_eq!(sigs[0].params.len(), 3);
    assert_eq!(sigs[0].params[0].name, "asset");
    assert_eq!(sigs[0].params[0].ty_name, "Symbol");
    assert_eq!(sigs[0].params[1].ty_name, "I64");
    assert_eq!(sigs[0].params[2].ty_name, "Option<U32>");
    assert_eq!(sigs[1].params[0].ty_name, "Tuple<U32, Symbol>");
}

#[test]
fn spec_section_yields_error_catalogue() {
    let b = module_with_spec(&[error_enum_entry(
        "Error",
        &[("InsufficientBalance", "balance too low", 7), ("Unauthorized", "not admin", 9)],
    )]);
    let rows = parse_error_catalogue(&b).unwrap();
    assert_eq!(
        rows,
        vec![
            (7, "InsufficientBalance".to_string(), "balance too low".to_string()),
            (9, "Unauthorized".to_string(), "not admin".to_string()),
        ]
    );
    assert!(parse_contract_spec(&b).unwrap().is_empty());
}

#[test]
fn absent_spec_section_declares_nothing() {
    let b = vec![0x00, 0x61, 0x73, 0x6d, 0x01, 0x00, 0x00, 0x00];
    assert!(parse_contract_spec(&b).unwrap().is_empty());
    assert!(parse_error_catalogue(&b).unwrap().is_empty());
    assert_eq!(parse_contract_spec(&[1, 2, 3]).unwrap_err(), DebuggerError::InvalidBinary);
}

#[test]
fn unreadable_entries_stop_the_stream() {
    let mut entries = vec![func_entry("first", &[], &[])];
    entries.push(u32be(99));  // an entry kind the reader does not know
    entries.push(func_entry("second", &[], &[]));
    let b = module_with_spec(&entries);
    let sigs = parse_contract_spec(&b).unwrap();
    assert_eq!(sigs.len(), 1);
    assert_eq!(sigs[0].name, "first");
}

#[test]
fn spec_signatures_drive_the_normaliser() {
    let b = module_with_spec(&[func_entry("store", &[("x", td_option(td(4)))], &[td(2)])]);
    let sigs = parse_contract_spec(&b).unwrap();
    let out = normalize_args_for_function(&sigs, "store", "[null]").unwrap();
    assert_eq!(out, "[{\"type\":\"option\",\"value\":null}]");
}
