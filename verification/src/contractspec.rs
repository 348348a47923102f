//! Reader for the contract-spec custom section: the surface-typed function
//! signatures that drive the argument normaliser, and the declared error
//! enum that fills the error catalogue. The section holds a stream of
//! fixed-layout entries (big-endian words, length-prefixed byte strings
//! padded to four bytes, nested type descriptors); entries the reader does
//! not know stop the stream, which the loader treats as a warning, never a
//! hard error.

use vstd::prelude::*;

use crate::decimal::dec_of;
use crate::parser::SpecFunctionView;
use crate::parser::SpecParamView;
use vstd::utf8::decode_utf8;
use vstd::utf8::valid_utf8;

verus! {

/// The name of the custom section carrying the contract spec.
pub open spec fn spec_section_name() -> Seq<u8> {
    seq![99u8, 111u8, 110u8, 116u8, 114u8, 97u8, 99u8, 116u8, 115u8, 112u8, 101u8, 99u8, 118u8, 48u8]
}

/// The big-endian word at `pos`, read within `[0, end)`.
pub open spec fn xdr_u32_at(b: Seq<u8>, pos: int, end: int) -> Option<(nat, int)> {
    if pos < 0 || pos + 4 > end || end > b.len() {
        None
    } else {
        Some(
            (
                (b[pos] as nat) * 0x100_0000 + (b[pos + 1] as nat) * 0x1_0000
                    + (b[pos + 2] as nat) * 0x100 + (b[pos + 3] as nat),
                pos + 4,
            ),
        )
    }
}

/// A byte-string length padded up to a multiple of four.
pub open spec fn xdr_pad(n: nat) -> nat {
    (n + ((4 - n % 4) % 4)) as nat
}

/// The length-prefixed byte string at `pos`: the bytes and the position
/// after the padding.
pub open spec fn xdr_opaque_at(b: Seq<u8>, pos: int, end: int) -> Option<(Seq<u8>, int)> {
    match xdr_u32_at(b, pos, end) {
        None => None,
        Some((len, p)) => if p + xdr_pad(len) > end {
            None
        } else {
            Some((b.subrange(p, p + len), p + xdr_pad(len)))
        },
    }
}

/// The surface name of the type descriptor at `pos`, and the position
/// after it: scalars by their name, containers with their elements in angle
/// brackets, user-defined types by their declared name. `fuel` bounds the
/// walk; every descriptor consumes at least four bytes, so a fuel of the
/// section's length never runs out on a readable descriptor.
pub open spec fn td_text(b: Seq<u8>, pos: int, end: int, fuel: nat) -> Option<(Seq<char>, int)>
    decreases fuel, 0int,
{
    if fuel == 0 {
        None
    } else {
        match xdr_u32_at(b, pos, end) {
            None => None,
            Some((code, p)) => {
                if code == 0 {
                    Some(("Val"@, p))
                } else if code == 1 {
                    Some(("Bool"@, p))
                } else if code == 2 {
                    Some(("Void"@, p))
                } else if code == 3 {
                    Some(("Error"@, p))
                } else if code == 4 {
                    Some(("U32"@, p))
                } else if code == 5 {
                    Some(("I32"@, p))
                } else if code == 6 {
                    Some(("U64"@, p))
                } else if code == 7 {
                    Some(("I64"@, p))
                } else if code == 8 {
                    Some(("Timepoint"@, p))
                } else if code == 9 {
                    Some(("Duration"@, p))
                } else if code == 10 {
                    Some(("U128"@, p))
                } else if code == 11 {
                    Some(("I128"@, p))
                } else if code == 12 {
                    Some(("U256"@, p))
                } else if code == 13 {
                    Some(("I256"@, p))
                } else if code == 14 {
                    Some(("Bytes"@, p))
                } else if code == 16 {
                    Some(("String"@, p))
                } else if code == 17 {
                    Some(("Symbol"@, p))
                } else if code == 19 {
                    Some(("Address"@, p))
                } else if code == 20 {
                    Some(("MuxedAddress"@, p))
                } else if code == 1000 {
                    match td_text(b, p, end, (fuel - 1) as nat) {
                        None => None,
                        Some((t, p2)) => Some(("Option<"@ + t + ">"@, p2)),
                    }
                } else if code == 1001 {
                    match td_text(b, p, end, (fuel - 1) as nat) {
                        None => None,
                        Some((ok, p2)) => match td_text(b, p2, end, (fuel - 1) as nat) {
                            None => None,
                            Some((er, p3)) => Some(
                                ("Result<"@ + ok + ", "@ + er + ">"@, p3),
                            ),
                        },
                    }
                } else if code == 1002 {
                    match td_text(b, p, end, (fuel - 1) as nat) {
                        None => None,
                        Some((t, p2)) => Some(("Vec<"@ + t + ">"@, p2)),
                    }
                } else if code == 1004 {
                    match td_text(b, p, end, (fuel - 1) as nat) {
                        None => None,
                        Some((k, p2)) => match td_text(b, p2, end, (fuel - 1) as nat) {
                            None => None,
                            Some((v, p3)) => Some(("Map<"@ + k + ", "@ + v + ">"@, p3)),
                        },
                    }
                } else if code == 1005 {
                    match xdr_u32_at(b, p, end) {
                        None => None,
                        Some((m, p2)) => match td_list_text(b, p2, end, m, (fuel - 1) as nat) {
                            None => None,
                            Some((ts, p3)) => Some(("Tuple<"@ + ts + ">"@, p3)),
                        },
                    }
                } else if code == 1006 {
                    match xdr_u32_at(b, p, end) {
                        None => None,
                        Some((m, p2)) => Some(("BytesN<"@ + dec_of(m) + ">"@, p2)),
                    }
                } else if code == 2000 {
                    match xdr_opaque_at(b, p, end) {
                        None => None,
                        Some((nm, p2)) => if valid_utf8(nm) {
                            Some((decode_utf8(nm), p2))
                        } else {
                            None
                        },
                    }
                } else {
                    None
                }
            },
        }
    }
}

/// The comma-joined surface names of `n` type descriptors from `pos`.
pub open spec fn td_list_text(b: Seq<u8>, pos: int, end: int, n: nat, fuel: nat) -> Option<
    (Seq<char>, int),
>
    decreases fuel, 1int,
{
    if n == 0 {
        Some((Seq::empty(), pos))
    } else if fuel == 0 {
        None
    } else {
        match td_text(b, pos, end, fuel) {
            None => None,
            Some((t, p)) => if n == 1 {
                Some((t, p))
            } else {
                match td_list_text(b, p, end, (n - 1) as nat, (fuel - 1) as nat) {
                    None => None,
                    Some((rest, p2)) => Some((t + ", "@ + rest, p2)),
                }
            },
        }
    }
}

/// One entry of the spec section, as far as the debugger reads it: an
/// exported function with its named, surface-typed inputs; the cases of a
/// declared error enum; or another declaration the debugger only steps
/// over.
pub enum SpecEntryView {
    Func { name: Seq<u8>, inputs: Seq<(Seq<u8>, Seq<char>)> },
    ErrorCases { cases: Seq<(nat, Seq<u8>, Seq<u8>)> },
    Other,
}

/// `n` function inputs from `pos`: each a documentation string, a name and
/// a type descriptor.
pub open spec fn inputs_at(b: Seq<u8>, pos: int, end: int, n: nat, fuel: nat) -> Option<
    (Seq<(Seq<u8>, Seq<char>)>, int),
>
    decreases fuel, 2int,
{
    if n == 0 {
        Some((Seq::empty(), pos))
    } else if fuel == 0 {
        None
    } else {
        match xdr_opaque_at(b, pos, end) {
            None => None,
            Some((_doc, p1)) => match xdr_opaque_at(b, p1, end) {
                None => None,
                Some((name, p2)) => match td_text(b, p2, end, fuel) {
                    None => None,
                    Some((ty, p3)) => match inputs_at(b, p3, end, (n - 1) as nat, (fuel
                        - 1) as nat) {
                        None => None,
                        Some((rest, p4)) => Some((seq![(name, ty)] + rest, p4)),
                    },
                },
            },
        }
    }
}

/// The position after `n` structure fields (documentation, name, type) from
/// `pos`.
pub open spec fn fields_end(b: Seq<u8>, pos: int, end: int, n: nat, fuel: nat) -> Option<int>
    decreases fuel, 2int,
{
    if n == 0 {
        Some(pos)
    } else if fuel == 0 {
        None
    } else {
        match xdr_opaque_at(b, pos, end) {
            None => None,
            Some((_doc, p1)) => match xdr_opaque_at(b, p1, end) {
                None => None,
                Some((_name, p2)) => match td_text(b, p2, end, fuel) {
                    None => None,
                    Some((_ty, p3)) => fields_end(b, p3, end, (n - 1) as nat, (fuel - 1) as nat),
                },
            },
        }
    }
}

/// The position after `n` union cases (a tag, documentation and name, and
/// for a payload case its type descriptors) from `pos`.
pub open spec fn union_cases_end(b: Seq<u8>, pos: int, end: int, n: nat, fuel: nat) -> Option<
    int,
>
    decreases fuel, 2int,
{
    if n == 0 {
        Some(pos)
    } else if fuel == 0 {
        None
    } else {
        match xdr_u32_at(b, pos, end) {
            None => None,
            Some((kind, p0)) => match xdr_opaque_at(b, p0, end) {
                None => None,
                Some((_doc, p1)) => match xdr_opaque_at(b, p1, end) {
                    None => None,
                    Some((_name, p2)) => {
                        if kind == 0 {
                            union_cases_end(b, p2, end, (n - 1) as nat, (fuel - 1) as nat)
                        } else if kind == 1 {
                            match xdr_u32_at(b, p2, end) {
                                None => None,
                                Some((m, p3)) => match td_list_text(b, p3, end, m, fuel) {
                                    None => None,
                                    Some((_ts, p4)) => union_cases_end(
                                        b,
                                        p4,
                                        end,
                                        (n - 1) as nat,
                                        (fuel - 1) as nat,
                                    ),
                                },
                            }
                        } else {
                            None
                        }
                    },
                },
            },
        }
    }
}

/// `n` enum cases from `pos`: each a documentation string, a name and a
/// numeric value.
pub open spec fn enum_cases_at(b: Seq<u8>, pos: int, end: int, n: nat) -> Option<
    (Seq<(nat, Seq<u8>, Seq<u8>)>, int),
>
    decreases n,
{
    if n == 0 {
        Some((Seq::empty(), pos))
    } else {
        match xdr_opaque_at(b, pos, end) {
            None => None,
            Some((doc, p1)) => match xdr_opaque_at(b, p1, end) {
                None => None,
                Some((name, p2)) => match xdr_u32_at(b, p2, end) {
                    None => None,
                    Some((value, p3)) => match enum_cases_at(b, p3, end, (n - 1) as nat) {
                        None => None,
                        Some((rest, p4)) => Some((seq![(value, name, doc)] + rest, p4)),
                    },
                },
            },
        }
    }
}

/// The entry at `pos` and the position after it: a function, an error
/// enum's cases, another known declaration stepped over, or nothing when
/// the entry cannot be read. The walk follows at most a few thousand
/// nested items per entry; an entry deeper than that stops the stream like
/// any other unreadable one.
pub open spec fn entry_at(b: Seq<u8>, pos: int, end: int) -> Option<(SpecEntryView, int)> {
    let avail = if end >= pos {
        (end - pos) as nat
    } else {
        0
    };
    let fuel = if avail > 4096 {
        4096 as nat
    } else {
        avail
    };
    match xdr_u32_at(b, pos, end) {
        None => None,
        Some((kind, p0)) => {
            if kind == 0 {
                match xdr_opaque_at(b, p0, end) {
                    None => None,
                    Some((_doc, p1)) => match xdr_opaque_at(b, p1, end) {
                        None => None,
                        Some((name, p2)) => match xdr_u32_at(b, p2, end) {
                            None => None,
                            Some((ic, p3)) => match inputs_at(b, p3, end, ic, fuel) {
                                None => None,
                                Some((inputs, p4)) => match xdr_u32_at(b, p4, end) {
                                    None => None,
                                    Some((oc, p5)) => match td_list_text(b, p5, end, oc, fuel) {
                                        None => None,
                                        Some((_outs, p6)) => Some(
                                            (SpecEntryView::Func { name, inputs }, p6),
                                        ),
                                    },
                                },
                            },
                        },
                    },
                }
            } else if kind == 1 || kind == 2 || kind == 3 || kind == 4 {
                match xdr_opaque_at(b, p0, end) {
                    None => None,
                    Some((_doc, p1)) => match xdr_opaque_at(b, p1, end) {
                        None => None,
                        Some((_lib, p2)) => match xdr_opaque_at(b, p2, end) {
                            None => None,
                            Some((_name, p3)) => match xdr_u32_at(b, p3, end) {
                                None => None,
                                Some((count, p4)) => {
                                    if kind == 1 {
                                        match fields_end(b, p4, end, count, fuel) {
                                            None => None,
                                            Some(p5) => Some((SpecEntryView::Other, p5)),
                                        }
                                    } else if kind == 2 {
                                        match union_cases_end(b, p4, end, count, fuel) {
                                            None => None,
                                            Some(p5) => Some((SpecEntryView::Other, p5)),
                                        }
                                    } else {
                                        match enum_cases_at(b, p4, end, count) {
                                            None => None,
                                            Some((cases, p5)) => if kind == 4 {
                                                Some((SpecEntryView::ErrorCases { cases }, p5))
                                            } else {
                                                Some((SpecEntryView::Other, p5))
                                            },
                                        }
                                    }
                                },
                            },
                        },
                    },
                }
            } else {
                None
            }
        },
    }
}

/// The entries readable from `pos`: the stream up to its end, stopping at
/// the first entry the reader cannot follow.
pub open spec fn entries_from(b: Seq<u8>, pos: int, end: int) -> Seq<SpecEntryView>
    decreases end - pos,
        when end <= b.len()
{
    if pos < 0 || pos >= end {
        Seq::empty()
    } else {
        match entry_at(b, pos, end) {
            None => Seq::empty(),
            Some((e, np)) => if np <= pos || np > end {
                Seq::empty()
            } else {
                seq![e] + entries_from(b, np, end)
            },
        }
    }
}

/// A function entry whose name and input names all decode as text.
pub open spec fn func_entry_ok(name: Seq<u8>, inputs: Seq<(Seq<u8>, Seq<char>)>) -> bool {
    valid_utf8(name) && forall|i: int|
        0 <= i < inputs.len() ==> valid_utf8((#[trigger] inputs[i]).0)
}

/// The surface signature a function entry declares.
pub open spec fn func_view_of(
    name: Seq<u8>,
    inputs: Seq<(Seq<u8>, Seq<char>)>,
) -> SpecFunctionView {
    SpecFunctionView {
        name: decode_utf8(name),
        params: inputs.map_values(
            |inp: (Seq<u8>, Seq<char>)| SpecParamView { name: decode_utf8(inp.0), ty_name: inp.1 },
        ),
    }
}

/// The surface signatures the entries declare, in entry order; entries
/// whose names do not decode are passed over.
pub open spec fn spec_functions_of(es: Seq<SpecEntryView>) -> Seq<SpecFunctionView>
    decreases es.len(),
{
    if es.len() == 0 {
        Seq::empty()
    } else {
        (match es[0] {
            SpecEntryView::Func { name, inputs } => if func_entry_ok(name, inputs) {
                seq![func_view_of(name, inputs)]
            } else {
                Seq::empty()
            },
            _ => Seq::empty(),
        }) + spec_functions_of(es.drop_first())
    }
}

/// The catalogue rows of one error enum's cases, in case order; cases whose
/// texts do not decode are passed over.
pub open spec fn cases_catalogue(cs: Seq<(nat, Seq<u8>, Seq<u8>)>) -> Seq<
    (u32, Seq<char>, Seq<char>),
>
    decreases cs.len(),
{
    if cs.len() == 0 {
        Seq::empty()
    } else {
        (if cs[0].0 <= u32::MAX && valid_utf8(cs[0].1) && valid_utf8(cs[0].2) {
            seq![((cs[0].0 as u32), decode_utf8(cs[0].1), decode_utf8(cs[0].2))]
        } else {
            Seq::empty()
        }) + cases_catalogue(cs.drop_first())
    }
}

/// The catalogue rows all error-enum entries declare, in entry order.
pub open spec fn error_entries_of(es: Seq<SpecEntryView>) -> Seq<(u32, Seq<char>, Seq<char>)>
    decreases es.len(),
{
    if es.len() == 0 {
        Seq::empty()
    } else {
        (match es[0] {
            SpecEntryView::ErrorCases { cases } => cases_catalogue(cases),
            _ => Seq::empty(),
        }) + error_entries_of(es.drop_first())
    }
}

/// What reading the surface signatures from a binary yields: nothing on a
/// bad marker or malformed container, an empty list when the section is
/// absent, else the declared signatures up to the first unreadable entry.
pub open spec fn contract_spec_spec(bytes: Seq<u8>) -> Option<Seq<SpecFunctionView>> {
    if !crate::wasm::has_magic(bytes) {
        None
    } else {
        match crate::wasm::find_custom_spec(bytes, 8, spec_section_name()) {
            None => None,
            Some(None) => Some(Seq::empty()),
            Some(Some((s, e))) => Some(spec_functions_of(entries_from(bytes, s, e))),
        }
    }
}

/// What reading the declared error catalogue from a binary yields.
pub open spec fn error_catalogue_spec(bytes: Seq<u8>) -> Option<
    Seq<(u32, Seq<char>, Seq<char>)>,
> {
    if !crate::wasm::has_magic(bytes) {
        None
    } else {
        match crate::wasm::find_custom_spec(bytes, 8, spec_section_name()) {
            None => None,
            Some(None) => Some(Seq::empty()),
            Some(Some((s, e))) => Some(error_entries_of(entries_from(bytes, s, e))),
        }
    }
}

/// Read the big-endian word at `pos` within `[0, end)`.
fn read_u32(b: &[u8], pos: usize, end: usize) -> (r: Option<(u32, usize)>)
    ensures
        match r {
            Some((v, np)) => xdr_u32_at(b@, pos as int, end as int) == Some(
                (v as nat, np as int),
            ) && pos < np <= end <= b@.len(),
            None => xdr_u32_at(b@, pos as int, end as int) is None,
        },
{
    if end > b.len() || pos > end || end - pos < 4 {
        return None;
    }
    let v: u32 = (b[pos] as u32) * 0x100_0000 + (b[pos + 1] as u32) * 0x1_0000 + (b[pos
        + 2] as u32) * 0x100 + (b[pos + 3] as u32);
    Some((v, pos + 4))
}

/// Read the length-prefixed byte string at `pos` within `[0, end)`.
fn read_opaque(b: &[u8], pos: usize, end: usize) -> (r: Option<(Vec<u8>, usize)>)
    ensures
        match r {
            Some((bs, np)) => xdr_opaque_at(b@, pos as int, end as int) == Some(
                (bs@, np as int),
            ) && pos < np <= end <= b@.len(),
            None => xdr_opaque_at(b@, pos as int, end as int) is None,
        },
{
    let (len, p) = match read_u32(b, pos, end) {
        None => {
            return None;
        },
        Some(x) => x,
    };
    let pad = ((4 - (len % 4)) % 4) as usize;
    let len = len as usize;
    if len > end || p > end - len || pad > end - len - p {
        proof {
            assert(p + xdr_pad(len as nat) > end);
        }
        return None;
    }
    let bytes = crate::wasm::bytes_to_vec(vstd::slice::slice_subrange(b, p, p + len));
    proof {
        assert(bytes@ =~= b@.subrange(p as int, p as int + len as int));
    }
    Some((bytes, p + len + pad))
}

/// Read the type descriptor at `pos` as its surface name.
fn read_td(b: &[u8], pos: usize, end: usize, fuel: usize) -> (r: Option<(Vec<char>, usize)>)
    ensures
        match r {
            Some((t, np)) => td_text(b@, pos as int, end as int, fuel as nat) == Some(
                (t@, np as int),
            ) && np <= end <= b@.len(),
            None => td_text(b@, pos as int, end as int, fuel as nat) is None,
        },
    decreases fuel, 0int,
{
    if fuel == 0 {
        return None;
    }
    let (code, p) = match read_u32(b, pos, end) {
        None => {
            return None;
        },
        Some(x) => x,
    };
    if code == 0 {
        Some((crate::strutil::chars_of("Val"), p))
    } else if code == 1 {
        Some((crate::strutil::chars_of("Bool"), p))
    } else if code == 2 {
        Some((crate::strutil::chars_of("Void"), p))
    } else if code == 3 {
        Some((crate::strutil::chars_of("Error"), p))
    } else if code == 4 {
        Some((crate::strutil::chars_of("U32"), p))
    } else if code == 5 {
        Some((crate::strutil::chars_of("I32"), p))
    } else if code == 6 {
        Some((crate::strutil::chars_of("U64"), p))
    } else if code == 7 {
        Some((crate::strutil::chars_of("I64"), p))
    } else if code == 8 {
        Some((crate::strutil::chars_of("Timepoint"), p))
    } else if code == 9 {
        Some((crate::strutil::chars_of("Duration"), p))
    } else if code == 10 {
        Some((crate::strutil::chars_of("U128"), p))
    } else if code == 11 {
        Some((crate::strutil::chars_of("I128"), p))
    } else if code == 12 {
        Some((crate::strutil::chars_of("U256"), p))
    } else if code == 13 {
        Some((crate::strutil::chars_of("I256"), p))
    } else if code == 14 {
        Some((crate::strutil::chars_of("Bytes"), p))
    } else if code == 16 {
        Some((crate::strutil::chars_of("String"), p))
    } else if code == 17 {
        Some((crate::strutil::chars_of("Symbol"), p))
    } else if code == 19 {
        Some((crate::strutil::chars_of("Address"), p))
    } else if code == 20 {
        Some((crate::strutil::chars_of("MuxedAddress"), p))
    } else if code == 1000 {
        match read_td(b, p, end, fuel - 1) {
            None => None,
            Some((t, p2)) => {
                let mut out = crate::strutil::chars_of("Option<");
                crate::json::append_chars(&mut out, t.as_slice());
                let close = crate::strutil::chars_of(">");
                crate::json::append_chars(&mut out, close.as_slice());
                Some((out, p2))
            },
        }
    } else if code == 1001 {
        match read_td(b, p, end, fuel - 1) {
            None => None,
            Some((ok, p2)) => match read_td(b, p2, end, fuel - 1) {
                None => None,
                Some((er, p3)) => {
                    let mut out = crate::strutil::chars_of("Result<");
                    crate::json::append_chars(&mut out, ok.as_slice());
                    let sep = crate::strutil::chars_of(", ");
                    crate::json::append_chars(&mut out, sep.as_slice());
                    crate::json::append_chars(&mut out, er.as_slice());
                    let close = crate::strutil::chars_of(">");
                    crate::json::append_chars(&mut out, close.as_slice());
                    Some((out, p3))
                },
            },
        }
    } else if code == 1002 {
        match read_td(b, p, end, fuel - 1) {
            None => None,
            Some((t, p2)) => {
                let mut out = crate::strutil::chars_of("Vec<");
                crate::json::append_chars(&mut out, t.as_slice());
                let close = crate::strutil::chars_of(">");
                crate::json::append_chars(&mut out, close.as_slice());
                Some((out, p2))
            },
        }
    } else if code == 1004 {
        match read_td(b, p, end, fuel - 1) {
            None => None,
            Some((k, p2)) => match read_td(b, p2, end, fuel - 1) {
                None => None,
                Some((v, p3)) => {
                    let mut out = crate::strutil::chars_of("Map<");
                    crate::json::append_chars(&mut out, k.as_slice());
                    let sep = crate::strutil::chars_of(", ");
                    crate::json::append_chars(&mut out, sep.as_slice());
                    crate::json::append_chars(&mut out, v.as_slice());
                    let close = crate::strutil::chars_of(">");
                    crate::json::append_chars(&mut out, close.as_slice());
                    Some((out, p3))
                },
            },
        }
    } else if code == 1005 {
        match read_u32(b, p, end) {
            None => None,
            Some((m, p2)) => match read_td_list(b, p2, end, m, fuel - 1) {
                None => None,
                Some((ts, p3)) => {
                    let mut out = crate::strutil::chars_of("Tuple<");
                    crate::json::append_chars(&mut out, ts.as_slice());
                    let close = crate::strutil::chars_of(">");
                    crate::json::append_chars(&mut out, close.as_slice());
                    Some((out, p3))
                },
            },
        }
    } else if code == 1006 {
        match read_u32(b, p, end) {
            None => None,
            Some((m, p2)) => {
                let mut out = crate::strutil::chars_of("BytesN<");
                let d = crate::decimal::u128_to_dec(m as u128);
                crate::json::append_chars(&mut out, d.as_slice());
                let close = crate::strutil::chars_of(">");
                crate::json::append_chars(&mut out, close.as_slice());
                Some((out, p2))
            },
        }
    } else if code == 2000 {
        match read_opaque(b, p, end) {
            None => None,
            Some((nm, p2)) => match crate::wasm::string_from_utf8(nm) {
                None => None,
                Some(s) => Some((crate::strutil::chars_of(s.as_str()), p2)),
            },
        }
    } else {
        None
    }
}

/// Read `n` type descriptors from `pos`, comma-joined.
fn read_td_list(b: &[u8], pos: usize, end: usize, n: u32, fuel: usize) -> (r: Option<
    (Vec<char>, usize),
>)
    ensures
        match r {
            Some((t, np)) => td_list_text(b@, pos as int, end as int, n as nat, fuel as nat)
                == Some((t@, np as int)) && np <= end <= b@.len() || (n == 0 && td_list_text(
                b@,
                pos as int,
                end as int,
                n as nat,
                fuel as nat,
            ) == Some((t@, np as int)) && np == pos),
            None => td_list_text(b@, pos as int, end as int, n as nat, fuel as nat) is None,
        },
    decreases fuel, 1int,
{
    if n == 0 {
        return Some((Vec::new(), pos));
    }
    if fuel == 0 {
        return None;
    }
    match read_td(b, pos, end, fuel) {
        None => None,
        Some((t, p)) => {
            if n == 1 {
                Some((t, p))
            } else {
                match read_td_list(b, p, end, n - 1, fuel - 1) {
                    None => None,
                    Some((rest, p2)) => {
                        let mut out = t;
                        let sep = crate::strutil::chars_of(", ");
                        crate::json::append_chars(&mut out, sep.as_slice());
                        crate::json::append_chars(&mut out, rest.as_slice());
                        Some((out, p2))
                    },
                }
            }
        },
    }
}

/// A vector with one element put in front.
fn prepend<T>(head: T, rest: Vec<T>) -> (r: Vec<T>)
    ensures
        r@ == seq![head] + rest@,
{
    let ghost rv = rest@;
    let mut rest = rest;
    let mut tmp: Vec<T> = Vec::new();
    proof {
        assert(tmp@.reverse() =~= Seq::<T>::empty());
    }
    while rest.len() > 0
        invariant
            rv =~= rest@ + tmp@.reverse(),
        decreases rest@.len(),
    {
        let ghost pre = rest@;
        let e = match rest.pop() {
            Some(e) => e,
            None => {
                proof {
                    assert(false);
                }
                unreached()
            },
        };
        let ghost tpre = tmp@;
        tmp.push(e);
        proof {
            assert(rest@ =~= pre.drop_last());
            assert(tmp@.reverse() =~= seq![e] + tpre.reverse());
            assert(pre.drop_last() + (seq![e] + tpre.reverse()) =~= pre + tpre.reverse());
        }
    }
    proof {
        assert(rv =~= tmp@.reverse());
    }
    let mut out: Vec<T> = Vec::new();
    out.push(head);
    while tmp.len() > 0
        invariant
            out@ + tmp@.reverse() =~= seq![head] + rv,
        decreases tmp@.len(),
    {
        let ghost pre = tmp@;
        let ghost opre = out@;
        let e = match tmp.pop() {
            Some(e) => e,
            None => {
                proof {
                    assert(false);
                }
                unreached()
            },
        };
        out.push(e);
        proof {
            assert(pre.reverse() =~= seq![e] + pre.drop_last().reverse());
            assert(opre.push(e) + pre.drop_last().reverse() =~= opre + (seq![e]
                + pre.drop_last().reverse()));
        }
    }
    proof {
        assert(tmp@.reverse() =~= Seq::<T>::empty());
        assert(out@ =~= seq![head] + rv);
    }
    out
}

/// The views of an input list.
pub open spec fn input_views(is: Seq<(Vec<u8>, Vec<char>)>) -> Seq<(Seq<u8>, Seq<char>)> {
    is.map_values(|i: (Vec<u8>, Vec<char>)| (i.0@, i.1@))
}

/// Read `n` function inputs from `pos`.
fn read_inputs(b: &[u8], pos: usize, end: usize, n: u32, fuel: usize) -> (r: Option<
    (Vec<(Vec<u8>, Vec<char>)>, usize),
>)
    ensures
        match r {
            Some((is, np)) => inputs_at(b@, pos as int, end as int, n as nat, fuel as nat)
                == Some((input_views(is@), np as int)),
            None => inputs_at(b@, pos as int, end as int, n as nat, fuel as nat) is None,
        },
    decreases fuel, 2int,
{
    if n == 0 {
        proof {
            assert(input_views(Seq::<(Vec<u8>, Vec<char>)>::empty()) =~= Seq::<
                (Seq<u8>, Seq<char>),
            >::empty());
        }
        return Some((Vec::new(), pos));
    }
    if fuel == 0 {
        return None;
    }
    let (_doc, p1) = match read_opaque(b, pos, end) {
        None => {
            return None;
        },
        Some(x) => x,
    };
    let (name, p2) = match read_opaque(b, p1, end) {
        None => {
            return None;
        },
        Some(x) => x,
    };
    let (ty, p3) = match read_td(b, p2, end, fuel) {
        None => {
            return None;
        },
        Some(x) => x,
    };
    match read_inputs(b, p3, end, n - 1, fuel - 1) {
        None => None,
        Some((rest, p4)) => {
            let ghost head_view = (name@, ty@);
            let ghost rest_views = input_views(rest@);
            let out = prepend((name, ty), rest);
            proof {
                assert(input_views(out@) =~= seq![head_view] + rest_views) by {
                    assert(out@.len() == 1 + rest@.len());
                    assert forall|k: int| 0 <= k < out@.len() implies #[trigger] input_views(
                        out@,
                    )[k] == (seq![head_view] + rest_views)[k] by {
                        if k == 0 {
                            assert(out@[0] == (name, ty));
                        } else {
                            assert(out@[k] == rest@[k - 1]);
                        }
                    }
                }
            }
            Some((out, p4))
        },
    }
}

/// Step over `n` structure fields from `pos`.
fn read_fields_end(b: &[u8], pos: usize, end: usize, n: u32, fuel: usize) -> (r: Option<usize>)
    ensures
        match r {
            Some(np) => fields_end(b@, pos as int, end as int, n as nat, fuel as nat) == Some(
                np as int,
            ),
            None => fields_end(b@, pos as int, end as int, n as nat, fuel as nat) is None,
        },
    decreases fuel, 2int,
{
    if n == 0 {
        return Some(pos);
    }
    if fuel == 0 {
        return None;
    }
    let (_doc, p1) = match read_opaque(b, pos, end) {
        None => {
            return None;
        },
        Some(x) => x,
    };
    let (_name, p2) = match read_opaque(b, p1, end) {
        None => {
            return None;
        },
        Some(x) => x,
    };
    let (_ty, p3) = match read_td(b, p2, end, fuel) {
        None => {
            return None;
        },
        Some(x) => x,
    };
    read_fields_end(b, p3, end, n - 1, fuel - 1)
}

/// Step over `n` union cases from `pos`.
fn read_union_cases_end(b: &[u8], pos: usize, end: usize, n: u32, fuel: usize) -> (r: Option<
    usize,
>)
    ensures
        match r {
            Some(np) => union_cases_end(b@, pos as int, end as int, n as nat, fuel as nat)
                == Some(np as int),
            None => union_cases_end(b@, pos as int, end as int, n as nat, fuel as nat)
                is None,
        },
    decreases fuel, 2int,
{
    if n == 0 {
        return Some(pos);
    }
    if fuel == 0 {
        return None;
    }
    let (kind, p0) = match read_u32(b, pos, end) {
        None => {
            return None;
        },
        Some(x) => x,
    };
    let (_doc, p1) = match read_opaque(b, p0, end) {
        None => {
            return None;
        },
        Some(x) => x,
    };
    let (_name, p2) = match read_opaque(b, p1, end) {
        None => {
            return None;
        },
        Some(x) => x,
    };
    if kind == 0 {
        read_union_cases_end(b, p2, end, n - 1, fuel - 1)
    } else if kind == 1 {
        let (m, p3) = match read_u32(b, p2, end) {
            None => {
                return None;
            },
            Some(x) => x,
        };
        match read_td_list(b, p3, end, m, fuel) {
            None => None,
            Some((_ts, p4)) => read_union_cases_end(b, p4, end, n - 1, fuel - 1),
        }
    } else {
        None
    }
}

/// The views of a case list.
pub open spec fn case_views(cs: Seq<(u32, Vec<u8>, Vec<u8>)>) -> Seq<(nat, Seq<u8>, Seq<u8>)> {
    cs.map_values(|c: (u32, Vec<u8>, Vec<u8>)| (c.0 as nat, c.1@, c.2@))
}

/// Read `n` enum cases from `pos`.
fn read_enum_cases(b: &[u8], pos: usize, end: usize, n: u32) -> (r: Option<
    (Vec<(u32, Vec<u8>, Vec<u8>)>, usize),
>)
    ensures
        match r {
            Some((cs, np)) => enum_cases_at(b@, pos as int, end as int, n as nat) == Some(
                (case_views(cs@), np as int),
            ),
            None => enum_cases_at(b@, pos as int, end as int, n as nat) is None,
        },
    decreases n,
{
    if n == 0 {
        proof {
            assert(case_views(Seq::<(u32, Vec<u8>, Vec<u8>)>::empty()) =~= Seq::<
                (nat, Seq<u8>, Seq<u8>),
            >::empty());
        }
        return Some((Vec::new(), pos));
    }
    let (doc, p1) = match read_opaque(b, pos, end) {
        None => {
            return None;
        },
        Some(x) => x,
    };
    let (name, p2) = match read_opaque(b, p1, end) {
        None => {
            return None;
        },
        Some(x) => x,
    };
    let (value, p3) = match read_u32(b, p2, end) {
        None => {
            return None;
        },
        Some(x) => x,
    };
    match read_enum_cases(b, p3, end, n - 1) {
        None => None,
        Some((rest, p4)) => {
            let ghost head_view = (value as nat, name@, doc@);
            let ghost rest_views = case_views(rest@);
            let out = prepend((value, name, doc), rest);
            proof {
                assert(case_views(out@) =~= seq![head_view] + rest_views) by {
                    assert(out@.len() == 1 + rest@.len());
                    assert forall|k: int| 0 <= k < out@.len() implies #[trigger] case_views(
                        out@,
                    )[k] == (seq![head_view] + rest_views)[k] by {
                        if k == 0 {
                            assert(out@[0] == (value, name, doc));
                        } else {
                            assert(out@[k] == rest@[k - 1]);
                        }
                    }
                }
            }
            Some((out, p4))
        },
    }
}

/// One entry as the reader holds it.
enum SpecEntry {
    Func { name: Vec<u8>, inputs: Vec<(Vec<u8>, Vec<char>)> },
    ErrorCases { cases: Vec<(u32, Vec<u8>, Vec<u8>)> },
    Other,
}

/// The view of a held entry.
spec fn entry_view(e: SpecEntry) -> SpecEntryView {
    match e {
        SpecEntry::Func { name, inputs } => SpecEntryView::Func {
            name: name@,
            inputs: input_views(inputs@),
        },
        SpecEntry::ErrorCases { cases } => SpecEntryView::ErrorCases {
            cases: case_views(cases@),
        },
        SpecEntry::Other => SpecEntryView::Other,
    }
}

/// Read the entry at `pos`.
fn read_entry(b: &[u8], pos: usize, end: usize) -> (r: Option<(SpecEntry, usize)>)
    ensures
        match r {
            Some((e, np)) => entry_at(b@, pos as int, end as int) == Some(
                (entry_view(e), np as int),
            ),
            None => entry_at(b@, pos as int, end as int) is None,
        },
{
    let avail = if end >= pos {
        end - pos
    } else {
        0
    };
    let fuel = if avail > 4096 {
        4096
    } else {
        avail
    };
    let (kind, p0) = match read_u32(b, pos, end) {
        None => {
            return None;
        },
        Some(x) => x,
    };
    if kind == 0 {
        let (_doc, p1) = match read_opaque(b, p0, end) {
            None => {
                return None;
            },
            Some(x) => x,
        };
        let (name, p2) = match read_opaque(b, p1, end) {
            None => {
                return None;
            },
            Some(x) => x,
        };
        let (ic, p3) = match read_u32(b, p2, end) {
            None => {
                return None;
            },
            Some(x) => x,
        };
        let (inputs, p4) = match read_inputs(b, p3, end, ic, fuel) {
            None => {
                return None;
            },
            Some(x) => x,
        };
        let (oc, p5) = match read_u32(b, p4, end) {
            None => {
                return None;
            },
            Some(x) => x,
        };
        match read_td_list(b, p5, end, oc, fuel) {
            None => None,
            Some((_outs, p6)) => Some((SpecEntry::Func { name, inputs }, p6)),
        }
    } else if kind == 1 || kind == 2 || kind == 3 || kind == 4 {
        let (_doc, p1) = match read_opaque(b, p0, end) {
            None => {
                return None;
            },
            Some(x) => x,
        };
        let (_lib, p2) = match read_opaque(b, p1, end) {
            None => {
                return None;
            },
            Some(x) => x,
        };
        let (_name, p3) = match read_opaque(b, p2, end) {
            None => {
                return None;
            },
            Some(x) => x,
        };
        let (count, p4) = match read_u32(b, p3, end) {
            None => {
                return None;
            },
            Some(x) => x,
        };
        if kind == 1 {
            match read_fields_end(b, p4, end, count, fuel) {
                None => None,
                Some(p5) => Some((SpecEntry::Other, p5)),
            }
        } else if kind == 2 {
            match read_union_cases_end(b, p4, end, count, fuel) {
                None => None,
                Some(p5) => Some((SpecEntry::Other, p5)),
            }
        } else {
            match read_enum_cases(b, p4, end, count) {
                None => None,
                Some((cases, p5)) => {
                    if kind == 4 {
                        Some((SpecEntry::ErrorCases { cases }, p5))
                    } else {
                        Some((SpecEntry::Other, p5))
                    }
                },
            }
        }
    } else {
        None
    }
}

/// The views of catalogue rows.
pub open spec fn err_row_views(rs: Seq<(u32, String, String)>) -> Seq<
    (u32, Seq<char>, Seq<char>),
> {
    rs.map_values(|x: (u32, String, String)| (x.0, x.1@, x.2@))
}

/// The catalogue rows split over concatenation.
proof fn lemma_cases_concat(a: Seq<(nat, Seq<u8>, Seq<u8>)>, b: Seq<(nat, Seq<u8>, Seq<u8>)>)
    ensures
        cases_catalogue(a + b) == cases_catalogue(a) + cases_catalogue(b),
    decreases a.len(),
{
    if a.len() == 0 {
        assert(a + b =~= b);
        assert(cases_catalogue(a) =~= Seq::<(u32, Seq<char>, Seq<char>)>::empty());
        assert(cases_catalogue(a) + cases_catalogue(b) =~= cases_catalogue(b));
    } else {
        assert((a + b)[0] == a[0]);
        assert((a + b).drop_first() =~= a.drop_first() + b);
        lemma_cases_concat(a.drop_first(), b);
        assert(cases_catalogue(a + b) =~= cases_catalogue(a) + cases_catalogue(b));
    }
}

/// Convert the inputs of a function entry into surface parameters; refuses
/// the entry when any input name does not decode.
fn convert_inputs(inputs: &Vec<(Vec<u8>, Vec<char>)>) -> (r: Option<
    Vec<crate::parser::SpecParam>,
>)
    ensures
        match r {
            Some(ps) => (forall|i: int|
                0 <= i < inputs@.len() ==> valid_utf8((#[trigger] inputs@[i]).0@))
                && ps@.map_values(|p: crate::parser::SpecParam| p@) == input_views(
                inputs@,
            ).map_values(
                |inp: (Seq<u8>, Seq<char>)|
                    SpecParamView { name: decode_utf8(inp.0), ty_name: inp.1 },
            ),
            None => exists|i: int|
                0 <= i < inputs@.len() && !valid_utf8((#[trigger] inputs@[i]).0@),
        },
{
    let ghost target = input_views(inputs@).map_values(
        |inp: (Seq<u8>, Seq<char>)| SpecParamView { name: decode_utf8(inp.0), ty_name: inp.1 },
    );
    let mut ps: Vec<crate::parser::SpecParam> = Vec::new();
    let mut i: usize = 0;
    while i < inputs.len()
        invariant
            i <= inputs@.len(),
            target == input_views(inputs@).map_values(
                |inp: (Seq<u8>, Seq<char>)|
                    SpecParamView { name: decode_utf8(inp.0), ty_name: inp.1 },
            ),
            ps@.len() == i,
            forall|j: int| 0 <= j < i ==> valid_utf8((#[trigger] inputs@[j]).0@),
            forall|j: int|
                0 <= j < i ==> (#[trigger] ps@[j])@ == target[j],
        decreases inputs@.len() - i,
    {
        let nb = crate::wasm::bytes_to_vec(inputs[i].0.as_slice());
        let name_s = match crate::wasm::string_from_utf8(nb) {
            None => {
                proof {
                    assert(!valid_utf8(inputs@[i as int].0@));
                }
                return None;
            },
            Some(s) => s,
        };
        let ty_s = crate::strutil::string_of(inputs[i].1.as_slice());
        ps.push(crate::parser::SpecParam { name: name_s, ty_name: ty_s });
        proof {
            assert(ps@[i as int]@ == target[i as int]);
        }
        i += 1;
    }
    proof {
        assert(ps@.map_values(|p: crate::parser::SpecParam| p@) =~= target);
    }
    Some(ps)
}

/// Convert an error enum's cases into catalogue rows, passing over cases
/// whose texts do not decode.
fn convert_cases(cases: &Vec<(u32, Vec<u8>, Vec<u8>)>) -> (r: Vec<(u32, String, String)>)
    ensures
        err_row_views(r@) == cases_catalogue(case_views(cases@)),
{
    let mut out: Vec<(u32, String, String)> = Vec::new();
    let mut i: usize = 0;
    proof {
        assert(case_views(cases@.subrange(0, 0)) =~= Seq::<(nat, Seq<u8>, Seq<u8>)>::empty());
        assert(err_row_views(out@) =~= cases_catalogue(case_views(cases@.subrange(0, 0))));
    }
    while i < cases.len()
        invariant
            i <= cases@.len(),
            err_row_views(out@) == cases_catalogue(case_views(cases@.subrange(0, i as int))),
        decreases cases@.len() - i,
    {
        let ghost pre = out@;
        let code = cases[i].0;
        let nb = crate::wasm::bytes_to_vec(cases[i].1.as_slice());
        let db = crate::wasm::bytes_to_vec(cases[i].2.as_slice());
        let converted: Option<(String, String)> = match crate::wasm::string_from_utf8(nb) {
            None => None,
            Some(name_s) => match crate::wasm::string_from_utf8(db) {
                None => None,
                Some(doc_s) => Some((name_s, doc_s)),
            },
        };
        let ghost did_push = converted is Some;
        match converted {
            Some((name_s, doc_s)) => {
                out.push((code, name_s, doc_s));
            },
            None => {
            },
        }
        proof {
            let cv = case_views(cases@.subrange(0, i + 1));
            let cvp = case_views(cases@.subrange(0, i as int));
            let ghost one = case_views(cases@.subrange(i as int, i + 1));
            assert(cv =~= cvp + one) by {
                assert(cases@.subrange(0, i + 1) =~= cases@.subrange(0, i as int)
                    + cases@.subrange(i as int, i + 1));
                assert forall|k: int| 0 <= k < cv.len() implies cv[k] == (cvp + one)[k] by {
                    if k < i {
                        assert(cases@.subrange(0, i + 1)[k] == cases@.subrange(0, i as int)[k]);
                    } else {
                        assert(cases@.subrange(0, i + 1)[k] == cases@.subrange(
                            i as int,
                            i + 1,
                        )[k - i]);
                    }
                }
            }
            lemma_cases_concat(cvp, one);
            assert(one.len() == 1);
            assert(one[0] == (
                cases@[i as int].0 as nat,
                cases@[i as int].1@,
                cases@[i as int].2@,
            ));
            assert(one.drop_first() =~= Seq::<(nat, Seq<u8>, Seq<u8>)>::empty());
            assert(cases_catalogue(one.drop_first()) =~= Seq::<
                (u32, Seq<char>, Seq<char>),
            >::empty());
            assert(one[0].0 <= u32::MAX);
            if did_push {
                assert(valid_utf8(one[0].1) && valid_utf8(one[0].2));
                assert(cases_catalogue(one) =~= seq![
                    (
                        cases@[i as int].0,
                        decode_utf8(cases@[i as int].1@),
                        decode_utf8(cases@[i as int].2@),
                    ),
                ]);
                assert(out@.last().1@ == decode_utf8(cases@[i as int].1@));
                assert(out@.last().2@ == decode_utf8(cases@[i as int].2@));
                assert(err_row_views(out@) =~= err_row_views(pre).push(
                    (out@.last().0, out@.last().1@, out@.last().2@),
                ));
                assert(err_row_views(out@) =~= cases_catalogue(cvp) + cases_catalogue(one));
                assert(err_row_views(out@) =~= cases_catalogue(cv));
            } else {
                assert(!(valid_utf8(one[0].1) && valid_utf8(one[0].2)));
                assert(cases_catalogue(one) =~= Seq::<(u32, Seq<char>, Seq<char>)>::empty());
                assert(err_row_views(out@) =~= cases_catalogue(cvp) + cases_catalogue(one));
                assert(err_row_views(out@) =~= cases_catalogue(cv));
            }
        }
        i += 1;
    }
    proof {
        assert(cases@.subrange(0, cases@.len() as int) =~= cases@);
    }
    out
}

/// Convert one function entry into a surface signature, or nothing when a
/// name does not decode.
fn convert_func(name: Vec<u8>, inputs: Vec<(Vec<u8>, Vec<char>)>) -> (r: Option<
    crate::parser::SpecFunction,
>)
    ensures
        match r {
            Some(f) => func_entry_ok(name@, input_views(inputs@)) && f@ == func_view_of(
                name@,
                input_views(inputs@),
            ),
            None => !func_entry_ok(name@, input_views(inputs@)),
        },
{
    let ghost gname = name@;
    let ghost ginputs = input_views(inputs@);
    let name_s = match crate::wasm::string_from_utf8(name) {
        None => {
            return None;
        },
        Some(s) => s,
    };
    let params = match convert_inputs(&inputs) {
        None => {
            proof {
                let j = choose|j: int|
                    0 <= j < inputs@.len() && !valid_utf8((#[trigger] inputs@[j]).0@);
                assert(ginputs[j].0 == inputs@[j].0@);
                assert(!func_entry_ok(gname, ginputs));
            }
            return None;
        },
        Some(ps) => ps,
    };
    let f = crate::parser::SpecFunction { name: name_s, params };
    proof {
        assert(func_entry_ok(gname, ginputs)) by {
            assert forall|k: int| 0 <= k < ginputs.len() implies valid_utf8(
                (#[trigger] ginputs[k]).0,
            ) by {
                assert(ginputs[k].0 == inputs@[k].0@);
            }
        }
        assert(f@.params =~= func_view_of(gname, ginputs).params);
        assert(f@ == func_view_of(gname, ginputs));
    }
    Some(f)
}

/// Append every row to the catalogue, in order.
fn append_rows(errs: &mut Vec<(u32, String, String)>, rows: Vec<(u32, String, String)>)
    ensures
        final(errs)@ == old(errs)@ + rows@,
{
    let ghost grows = rows@;
    let mut rows = rows;
    let mut tmp: Vec<(u32, String, String)> = Vec::new();
    proof {
        assert(tmp@.reverse() =~= Seq::<(u32, String, String)>::empty());
    }
    while rows.len() > 0
        invariant
            grows =~= rows@ + tmp@.reverse(),
        decreases rows@.len(),
    {
        let ghost pre = rows@;
        let e = match rows.pop() {
            Some(e) => e,
            None => {
                proof {
                    assert(false);
                }
                unreached()
            },
        };
        let ghost tpre = tmp@;
        tmp.push(e);
        proof {
            assert(rows@ =~= pre.drop_last());
            assert(tmp@.reverse() =~= seq![e] + tpre.reverse());
            assert(pre.drop_last() + (seq![e] + tpre.reverse()) =~= pre + tpre.reverse());
        }
    }
    proof {
        assert(grows =~= tmp@.reverse());
    }
    while tmp.len() > 0
        invariant
            errs@ + tmp@.reverse() =~= old(errs)@ + grows,
        decreases tmp@.len(),
    {
        let ghost pre = tmp@;
        let ghost epre = errs@;
        let e = match tmp.pop() {
            Some(e) => e,
            None => {
                proof {
                    assert(false);
                }
                unreached()
            },
        };
        errs.push(e);
        proof {
            assert(pre.reverse() =~= seq![e] + pre.drop_last().reverse());
            assert(epre.push(e) + pre.drop_last().reverse() =~= epre + (seq![e]
                + pre.drop_last().reverse()));
        }
    }
    proof {
        assert(tmp@.reverse() =~= Seq::<(u32, String, String)>::empty());
        assert(errs@ =~= old(errs)@ + grows);
    }
}

/// Read the whole spec section: the surface signatures and the catalogue
/// rows its entries declare.
#[verifier::rlimit(80)]
fn read_spec_section(b: &[u8], s: usize, e: usize) -> (r: (
    Vec<crate::parser::SpecFunction>,
    Vec<(u32, String, String)>,
))
    requires
        e <= b@.len(),
    ensures
        crate::parser::spec_fn_views(r.0@) == spec_functions_of(
            entries_from(b@, s as int, e as int),
        ),
        err_row_views(r.1@) == error_entries_of(entries_from(b@, s as int, e as int)),
{
    let mut funcs: Vec<crate::parser::SpecFunction> = Vec::new();
    let mut errs: Vec<(u32, String, String)> = Vec::new();
    let mut pos = s;
    proof {
        assert(crate::parser::spec_fn_views(funcs@) =~= Seq::<SpecFunctionView>::empty());
        assert(err_row_views(errs@) =~= Seq::<(u32, Seq<char>, Seq<char>)>::empty());
    }
    while pos < e
        invariant
            e <= b@.len(),
            spec_functions_of(entries_from(b@, s as int, e as int))
                == crate::parser::spec_fn_views(funcs@) + spec_functions_of(
                entries_from(b@, pos as int, e as int),
            ),
            error_entries_of(entries_from(b@, s as int, e as int)) == err_row_views(errs@)
                + error_entries_of(entries_from(b@, pos as int, e as int)),
        decreases e - pos,
    {
        let (entry, np) = match read_entry(b, pos, e) {
            None => {
                proof {
                    assert(entries_from(b@, pos as int, e as int)
                        =~= Seq::<SpecEntryView>::empty());
                    lemma_streams_empty(funcs@, errs@);
                }
                return (funcs, errs);
            },
            Some(x) => x,
        };
        if np <= pos || np > e {
            proof {
                assert(entries_from(b@, pos as int, e as int) =~= Seq::<SpecEntryView>::empty());
                lemma_streams_empty(funcs@, errs@);
            }
            return (funcs, errs);
        }
        proof {
            let stream = entries_from(b@, pos as int, e as int);
            let rest = entries_from(b@, np as int, e as int);
            assert(stream == seq![entry_view(entry)] + rest);
            assert(stream[0] == entry_view(entry));
            assert(stream.drop_first() =~= rest);
        }
        match entry {
            SpecEntry::Func { name, inputs } => {
                let ghost gname = name@;
                let ghost ginputs = input_views(inputs@);
                let ghost prefuncs = funcs@;
                match convert_func(name, inputs) {
                    None => {
                    },
                    Some(f) => {
                        funcs.push(f);
                        proof {
                            assert(crate::parser::spec_fn_views(funcs@)
                                =~= crate::parser::spec_fn_views(prefuncs).push(
                                funcs@.last()@,
                            ));
                        }
                    },
                }
            },
            SpecEntry::ErrorCases { cases } => {
                let ghost preerrs = errs@;
                let rows = convert_cases(&cases);
                let ghost grows = rows@;
                append_rows(&mut errs, rows);
                proof {
                    lemma_err_rows_concat(preerrs, grows);
                }
            },
            SpecEntry::Other => {
            },
        }
        pos = np;
    }
    proof {
        assert(entries_from(b@, pos as int, e as int) =~= Seq::<SpecEntryView>::empty());
        lemma_streams_empty(funcs@, errs@);
    }
    (funcs, errs)
}

/// An empty stream contributes nothing.
proof fn lemma_streams_empty(fs: Seq<crate::parser::SpecFunction>, rs: Seq<(u32, String, String)>)
    ensures
        spec_functions_of(Seq::<SpecEntryView>::empty()) =~= Seq::<SpecFunctionView>::empty(),
        error_entries_of(Seq::<SpecEntryView>::empty()) =~= Seq::<
            (u32, Seq<char>, Seq<char>),
        >::empty(),
        crate::parser::spec_fn_views(fs) + Seq::<SpecFunctionView>::empty() =~= crate::parser::spec_fn_views(fs),
        err_row_views(rs) + Seq::<(u32, Seq<char>, Seq<char>)>::empty() =~= err_row_views(rs),
{
}

/// Row views split over concatenation.
proof fn lemma_err_rows_concat(a: Seq<(u32, String, String)>, b: Seq<(u32, String, String)>)
    ensures
        err_row_views(a + b) =~= err_row_views(a) + err_row_views(b),
{
}

/// The surface-typed signatures the contract-spec section declares, in
/// entry order: the input names and type names the argument normaliser
/// keys on. An absent section declares none; an unreadable entry stops the
/// stream there, which the loader reports as a warning, never a failure.
/// Fails exactly on a bad leading marker or a malformed section chain.
pub fn parse_contract_spec(bytes: &[u8]) -> (r: Result<
    Vec<crate::parser::SpecFunction>,
    crate::DebuggerError,
>)
    ensures
        match r {
            Ok(fs) => contract_spec_spec(bytes@) == Some(crate::parser::spec_fn_views(fs@)),
            Err(e) => contract_spec_spec(bytes@) is None && e
                == crate::DebuggerError::InvalidBinary,
        },
{
    if !crate::wasm::check_magic(bytes) {
        return Err(crate::DebuggerError::InvalidBinary);
    }
    let name = section_name_bytes();
    match crate::wasm::find_custom(bytes, 8, name.as_slice()) {
        None => Err(crate::DebuggerError::InvalidBinary),
        Some(None) => {
            proof {
                assert(crate::parser::spec_fn_views(Seq::<crate::parser::SpecFunction>::empty())
                    =~= Seq::<SpecFunctionView>::empty());
            }
            Ok(Vec::new())
        },
        Some(Some((s, e))) => {
            let (funcs, _errs) = read_spec_section(bytes, s, e);
            Ok(funcs)
        },
    }
}

/// The error catalogue the contract-spec section declares: each declared
/// error enum's cases as `(code, name, documentation)`, in entry and case
/// order. Absence and unreadable tails behave as for the signatures.
pub fn parse_error_catalogue(bytes: &[u8]) -> (r: Result<
    Vec<(u32, String, String)>,
    crate::DebuggerError,
>)
    ensures
        match r {
            Ok(rows) => error_catalogue_spec(bytes@) == Some(err_row_views(rows@)),
            Err(e) => error_catalogue_spec(bytes@) is None && e
                == crate::DebuggerError::InvalidBinary,
        },
{
    if !crate::wasm::check_magic(bytes) {
        return Err(crate::DebuggerError::InvalidBinary);
    }
    let name = section_name_bytes();
    match crate::wasm::find_custom(bytes, 8, name.as_slice()) {
        None => Err(crate::DebuggerError::InvalidBinary),
        Some(None) => {
            proof {
                assert(err_row_views(Seq::<(u32, String, String)>::empty()) =~= Seq::<
                    (u32, Seq<char>, Seq<char>),
                >::empty());
            }
            Ok(Vec::new())
        },
        Some(Some((s, e))) => {
            let (_funcs, errs) = read_spec_section(bytes, s, e);
            Ok(errs)
        },
    }
}

/// The section name, as bytes.
fn section_name_bytes() -> (r: Vec<u8>)
    ensures
        r@ == spec_section_name(),
{
    let mut v: Vec<u8> = Vec::new();
    v.push(99);
    v.push(111);
    v.push(110);
    v.push(116);
    v.push(114);
    v.push(97);
    v.push(99);
    v.push(116);
    v.push(115);
    v.push(112);
    v.push(101);
    v.push(99);
    v.push(118);
    v.push(48);
    proof {
        assert(v@ =~= spec_section_name());
    }
    v
}

} // verus!
