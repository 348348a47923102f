//! The library's model of host values: the typed data a contract function
//! takes and returns, held as plain values. The argument parser turns a
//! normalised JSON document into host values with explicit type
//! discrimination; serialisation produces the typed envelope back.

use vstd::prelude::*;

use crate::decimal::all_digits;
use crate::decimal::dec_of;
use crate::decimal::dec_of_int;
use crate::decimal::is_signed_dec;
use crate::decimal::signed_dec_value;
use crate::json::obj_lookup;
use crate::json::JsonValue;
use crate::strutil::lex_cmp_spec;
use crate::strutil::CmpResult;

verus! {

/// A host value, as plain data: integers up to 128 bits directly, 256-bit
/// integers as canonical decimal text, and containers recursively.
#[derive(Debug, PartialEq, Eq)]
pub enum HostValue {
    Void,
    Bool(bool),
    U32(u32),
    I32(i32),
    U64(u64),
    I64(i64),
    U128(u128),
    I128(i128),
    U256(String),
    I256(String),
    Symbol(String),
    Str(String),
    Bytes(Vec<u8>),
    Address(String),
    List(Vec<HostValue>),
    MapVal(Vec<(HostValue, HostValue)>),
    OptVal(Option<Box<HostValue>>),
    Tuple(Vec<HostValue>),
}

/// The mathematical form of a host value.
pub enum HostValueView {
    Void,
    Bool(bool),
    U32(u32),
    I32(i32),
    U64(u64),
    I64(i64),
    U128(u128),
    I128(i128),
    U256(Seq<char>),
    I256(Seq<char>),
    Symbol(Seq<char>),
    Str(Seq<char>),
    Bytes(Seq<u8>),
    Address(Seq<char>),
    List(Seq<HostValueView>),
    MapVal(Seq<(HostValueView, HostValueView)>),
    OptVal(Option<Box<HostValueView>>),
    Tuple(Seq<HostValueView>),
}

/// The view of a host value.
pub open spec fn host_view(v: HostValue) -> HostValueView
    decreases v,
{
    match v {
        HostValue::Void => HostValueView::Void,
        HostValue::Bool(b) => HostValueView::Bool(b),
        HostValue::U32(n) => HostValueView::U32(n),
        HostValue::I32(n) => HostValueView::I32(n),
        HostValue::U64(n) => HostValueView::U64(n),
        HostValue::I64(n) => HostValueView::I64(n),
        HostValue::U128(n) => HostValueView::U128(n),
        HostValue::I128(n) => HostValueView::I128(n),
        HostValue::U256(s) => HostValueView::U256(s@),
        HostValue::I256(s) => HostValueView::I256(s@),
        HostValue::Symbol(s) => HostValueView::Symbol(s@),
        HostValue::Str(s) => HostValueView::Str(s@),
        HostValue::Bytes(b) => HostValueView::Bytes(b@),
        HostValue::Address(s) => HostValueView::Address(s@),
        HostValue::List(xs) => HostValueView::List(host_views(xs@)),
        HostValue::MapVal(ps) => HostValueView::MapVal(host_pair_views(ps@)),
        HostValue::OptVal(o) => match o {
            None => HostValueView::OptVal(None),
            Some(b) => HostValueView::OptVal(Some(Box::new(host_view(*b)))),
        },
        HostValue::Tuple(xs) => HostValueView::Tuple(host_views(xs@)),
    }
}

/// The views of a value list.
pub open spec fn host_views(s: Seq<HostValue>) -> Seq<HostValueView>
    decreases s,
{
    if s.len() == 0 {
        Seq::empty()
    } else {
        host_views(s.drop_last()).push(host_view(s.last()))
    }
}

/// The views of an entry list.
pub open spec fn host_pair_views(s: Seq<(HostValue, HostValue)>) -> Seq<
    (HostValueView, HostValueView),
>
    decreases s,
{
    if s.len() == 0 {
        Seq::empty()
    } else {
        host_pair_views(s.drop_last()).push(
            (host_view(s.last().0), host_view(s.last().1)),
        )
    }
}

impl View for HostValue {
    type V = HostValueView;

    open spec fn view(&self) -> HostValueView {
        host_view(*self)
    }
}

/// The canonical decimal text of 2^256 - 1, the largest unsigned 256-bit
/// value.
pub open spec fn u256_max_text() -> Seq<char> {
    "115792089237316195423570985008687907853269984665640564039457584007913129639935"@
}

/// The canonical decimal text of 2^255 - 1, the largest signed 256-bit
/// value.
pub open spec fn i256_max_text() -> Seq<char> {
    "57896044618658097711785492504343953926634992332820282019728792003956564819967"@
}

/// The canonical decimal text of the magnitude of -2^255, the smallest
/// signed 256-bit value.
pub open spec fn i256_min_mag_text() -> Seq<char> {
    "57896044618658097711785492504343953926634992332820282019728792003956564819968"@
}

/// `s` is a canonical unsigned decimal: digits only, no superfluous leading
/// zero.
pub open spec fn canon_dec(s: Seq<char>) -> bool {
    s.len() > 0 && all_digits(s) && (s.len() == 1 || s[0] != '0')
}

/// A canonical decimal `a` is numerically at most the canonical decimal
/// `b`: it is shorter, or of equal length and lexicographically no larger.
/// On canonical digit strings this order coincides with numeric order.
pub open spec fn canon_le(a: Seq<char>, b: Seq<char>) -> bool {
    a.len() < b.len() || (a.len() == b.len() && lex_cmp_spec(a, b) != CmpResult::Gt)
}

/// The text is a valid unsigned 256-bit literal.
pub open spec fn u256_text_wf(s: Seq<char>) -> bool {
    canon_dec(s) && canon_le(s, u256_max_text())
}

/// The text is a valid signed 256-bit literal: an optional sign before a
/// canonical magnitude in range, with no `-0`.
pub open spec fn i256_text_wf(s: Seq<char>) -> bool {
    if s.len() > 0 && s[0] == '-' {
        canon_dec(s.drop_first()) && canon_le(s.drop_first(), i256_min_mag_text())
            && s.drop_first() != seq!['0']
    } else {
        canon_dec(s) && canon_le(s, i256_max_text())
    }
}

/// The character may open a symbol.
pub open spec fn symbol_head(c: char) -> bool {
    ('a' <= c && c <= 'z') || ('A' <= c && c <= 'Z') || c == '_'
}

/// The character may continue a symbol.
pub open spec fn symbol_tail(c: char) -> bool {
    symbol_head(c) || ('0' <= c && c <= '9')
}

/// The text is a valid symbol: a letter or underscore, then letters, digits
/// and underscores, at most 32 characters.
pub open spec fn symbol_wf(s: Seq<char>) -> bool {
    1 <= s.len() <= 32 && symbol_head(s[0]) && forall|i: int|
        1 <= i < s.len() ==> symbol_tail(#[trigger] s[i])
}

/// The text is a valid address: at least ten characters beginning with `G`
/// (an account) or `C` (a contract).
pub open spec fn address_wf(s: Seq<char>) -> bool {
    s.len() >= 10 && (s[0] == 'G' || s[0] == 'C')
}

/// A well-formed host value: text payloads meet their shape rules, and
/// containers are well formed throughout.
pub open spec fn host_wf(v: HostValue) -> bool
    decreases v,
{
    match v {
        HostValue::U256(s) => u256_text_wf(s@),
        HostValue::I256(s) => i256_text_wf(s@),
        HostValue::Symbol(s) => symbol_wf(s@),
        HostValue::Address(s) => address_wf(s@),
        HostValue::List(xs) => host_list_wf(xs@),
        HostValue::MapVal(ps) => host_pairs_wf(ps@),
        HostValue::OptVal(o) => match o {
            None => true,
            Some(b) => host_wf(*b),
        },
        HostValue::Tuple(xs) => host_list_wf(xs@),
        _ => true,
    }
}

/// Every element is well formed.
pub open spec fn host_list_wf(s: Seq<HostValue>) -> bool
    decreases s,
{
    if s.len() == 0 {
        true
    } else {
        host_list_wf(s.drop_last()) && host_wf(s.last())
    }
}

/// Every entry is well formed.
pub open spec fn host_pairs_wf(s: Seq<(HostValue, HostValue)>) -> bool
    decreases s,
{
    if s.len() == 0 {
        true
    } else {
        host_pairs_wf(s.drop_last()) && host_wf(s.last().0) && host_wf(s.last().1)
    }
}

/// A hexadecimal digit.
pub open spec fn is_hex_digit(c: char) -> bool {
    ('0' <= c && c <= '9') || ('a' <= c && c <= 'f') || ('A' <= c && c <= 'F')
}

/// The value of a hexadecimal digit.
pub open spec fn hex_val(c: char) -> nat {
    if '0' <= c && c <= '9' {
        ((c as int) - ('0' as int)) as nat
    } else if 'a' <= c && c <= 'f' {
        ((c as int) - ('a' as int) + 10) as nat
    } else {
        ((c as int) - ('A' as int) + 10) as nat
    }
}

/// The text is a well-formed hex string: even length, hex digits only.
pub open spec fn hex_wf(s: Seq<char>) -> bool {
    s.len() % 2 == 0 && forall|i: int| 0 <= i < s.len() ==> is_hex_digit(#[trigger] s[i])
}

/// The bytes a hex string denotes, two digits each.
pub open spec fn hex_bytes(s: Seq<char>) -> Seq<u8>
    decreases s.len(),
{
    if s.len() < 2 {
        Seq::empty()
    } else {
        hex_bytes(s.drop_last().drop_last()).push(
            (hex_val(s[s.len() - 2]) * 16 + hex_val(s[s.len() - 1])) as u8,
        )
    }
}

/// Decode a hex string; refuses odd lengths and foreign characters.
pub fn decode_hex(s: &[char]) -> (r: Option<Vec<u8>>)
    ensures
        match r {
            Some(b) => hex_wf(s@) && b@ == hex_bytes(s@),
            None => !hex_wf(s@),
        },
{
    if s.len() % 2 != 0 {
        return None;
    }
    let mut out: Vec<u8> = Vec::new();
    let mut i: usize = 0;
    while i < s.len()
        invariant
            i <= s@.len(),
            i % 2 == 0,
            s@.len() % 2 == 0,
            forall|j: int| 0 <= j < i ==> is_hex_digit(#[trigger] s@[j]),
            out@ == hex_bytes(s@.subrange(0, i as int)),
        decreases s@.len() - i,
    {
        let hi = s[i];
        let lo = s[i + 1];
        let hv = match hex_digit_value(hi) {
            Some(v) => v,
            None => {
                return None;
            },
        };
        let lv = match hex_digit_value(lo) {
            Some(v) => v,
            None => {
                return None;
            },
        };
        out.push(hv * 16 + lv);
        proof {
            let p = s@.subrange(0, i + 2);
            assert(p.drop_last() =~= s@.subrange(0, i + 1));
            assert(p.drop_last().drop_last() =~= s@.subrange(0, i as int));
            assert(p[p.len() - 2] == s@[i as int] && p[p.len() - 1] == s@[i + 1]);
            assert(out@ =~= hex_bytes(p));
        }
        i += 2;
    }
    proof {
        assert(s@.subrange(0, s@.len() as int) =~= s@);
    }
    Some(out)
}

/// The value of one hex digit character.
fn hex_digit_value(c: char) -> (r: Option<u8>)
    ensures
        match r {
            Some(v) => is_hex_digit(c) && v == hex_val(c) && v < 16,
            None => !is_hex_digit(c),
        },
{
    if '0' <= c && c <= '9' {
        Some(((c as u32) - ('0' as u32)) as u8)
    } else if 'a' <= c && c <= 'f' {
        Some((((c as u32) - ('a' as u32)) + 10) as u8)
    } else if 'A' <= c && c <= 'F' {
        Some((((c as u32) - ('A' as u32)) + 10) as u8)
    } else {
        None
    }
}

/// The text without its superfluous leading zeros.
pub open spec fn strip_zeros(s: Seq<char>) -> Seq<char>
    decreases s.len(),
{
    if s.len() > 1 && s[0] == '0' {
        strip_zeros(s.drop_first())
    } else {
        s
    }
}

/// Strip superfluous leading zeros.
pub fn strip_zeros_exec(s: &[char]) -> (r: Vec<char>)
    ensures
        r@ == strip_zeros(s@),
{
    let mut i: usize = 0;
    proof {
        assert(s@.skip(0) =~= s@);
    }
    if s.len() > 0 {
        while i < s.len() - 1 && s[i] == '0'
            invariant
                s@.len() > 0,
                i < s@.len(),
                strip_zeros(s@) == strip_zeros(s@.skip(i as int)),
            decreases s@.len() - i,
        {
            proof {
                assert(s@.skip(i as int)[0] == s@[i as int]);
                assert(s@.skip(i as int).drop_first() =~= s@.skip(i + 1));
            }
            i += 1;
        }
    }
    let tail = vstd::slice::slice_subrange(s, i, s.len());
    proof {
        assert(tail@ =~= s@.skip(i as int));
        if i < s@.len() {
            assert(strip_zeros(s@.skip(i as int)) == s@.skip(i as int));
        } else {
            assert(s@.len() == 0);
            assert(s@.skip(0) =~= s@);
        }
    }
    let mut out: Vec<char> = Vec::new();
    let mut k: usize = 0;
    while k < tail.len()
        invariant
            k <= tail@.len(),
            out@ == tail@.subrange(0, k as int),
        decreases tail@.len() - k,
    {
        out.push(tail[k]);
        proof {
            assert(out@ =~= tail@.subrange(0, k + 1));
        }
        k += 1;
    }
    proof {
        assert(out@ =~= tail@);
    }
    out
}

/// Compare a canonical decimal against a bound, by length then
/// lexicographically.
pub fn canon_le_exec(a: &[char], bound: &str) -> (r: bool)
    ensures
        r == canon_le(a@, bound@),
{
    let bc = crate::strutil::chars_of(bound);
    if a.len() < bc.len() {
        return true;
    }
    if a.len() > bc.len() {
        return false;
    }
    match crate::strutil::lex_cmp(a, bc.as_slice()) {
        CmpResult::Gt => false,
        _ => true,
    }
}

/// The integer text a JSON value offers: a number's own text, or a string's
/// characters.
pub open spec fn int_text_of(v: JsonValue) -> Option<Seq<char>> {
    match v {
        JsonValue::Number(n) => Some(n@),
        JsonValue::String(s) => Some(s@),
        _ => None,
    }
}

/// The integer a JSON value denotes within `[lo, hi]`, if any.
pub open spec fn int_in_range(v: JsonValue, lo: int, hi: int) -> Option<int> {
    match int_text_of(v) {
        None => None,
        Some(t) => if is_signed_dec(t) && lo <= signed_dec_value(t) <= hi {
            Some(signed_dec_value(t))
        } else {
            None
        },
    }
}

/// The element position text `[i]` appended to a path.
pub open spec fn path_idx(path: Seq<char>, i: int) -> Seq<char> {
    path + seq!['['] + dec_of(i as nat) + seq![']']
}

/// What parsing a JSON document into a host value yields: raw primitives go
/// by their JSON type, a `{"type": …, "value": …}` envelope by its tag, and
/// any other shape is refused with a message naming the offending path.
pub open spec fn parse_spec(j: JsonValue, path: Seq<char>) -> Result<HostValueView, Seq<char>>
    decreases crate::json::json_size(j), 0int,
        via parse_spec_dec
{
    match j {
        JsonValue::Null => Ok(HostValueView::Void),
        JsonValue::Bool(b) => Ok(HostValueView::Bool(b)),
        JsonValue::Number(n) => if is_signed_dec(n@) && (i128::MIN <= signed_dec_value(n@)
            <= i128::MAX || 0 <= signed_dec_value(n@) <= u128::MAX) {
            Ok(int_view(signed_dec_value(n@)))
        } else {
            Err("Unsupported number at "@ + path)
        },
        JsonValue::String(s) => if symbol_wf(s@) {
            Ok(HostValueView::Symbol(s@))
        } else {
            Ok(HostValueView::Str(s@))
        },
        JsonValue::Array(_) => Err("Missing type annotation at "@ + path),
        JsonValue::Object(f) => match (obj_lookup(f@, "type"@), obj_lookup(f@, "value"@)) {
            (Some(tv), Some(vv)) => match tv {
                JsonValue::String(tag) => parse_tagged(tag@, vv, f@, path),
                _ => Err("Type tag must be a string at "@ + path),
            },
            _ => Err("Missing type annotation at "@ + path),
        },
    }
}

/// The smallest signed host integer holding `n`, widening to unsigned and
/// 128 bits as needed.
pub open spec fn int_view(n: int) -> HostValueView {
    if i32::MIN <= n <= i32::MAX {
        HostValueView::I32(n as i32)
    } else if i64::MIN <= n <= i64::MAX {
        HostValueView::I64(n as i64)
    } else if 0 <= n <= u64::MAX {
        HostValueView::U64(n as u64)
    } else if i128::MIN <= n <= i128::MAX {
        HostValueView::I128(n as i128)
    } else {
        HostValueView::U128(n as u128)
    }
}

/// What an envelope with the given tag yields.
pub open spec fn parse_tagged(
    tag: Seq<char>,
    vv: JsonValue,
    f: Seq<(String, JsonValue)>,
    path: Seq<char>,
) -> Result<HostValueView, Seq<char>>
    decreases crate::json::json_fields_size(f), 3int,
        when obj_lookup(f, "value"@) == Some(vv)
    via parse_tagged_dec
{
    if tag == "u32"@ {
        match int_in_range(vv, 0, u32::MAX as int) {
            Some(n) => Ok(HostValueView::U32(n as u32)),
            None => Err("Invalid u32 value at "@ + path),
        }
    } else if tag == "i32"@ {
        match int_in_range(vv, i32::MIN as int, i32::MAX as int) {
            Some(n) => Ok(HostValueView::I32(n as i32)),
            None => Err("Invalid i32 value at "@ + path),
        }
    } else if tag == "u64"@ {
        match int_in_range(vv, 0, u64::MAX as int) {
            Some(n) => Ok(HostValueView::U64(n as u64)),
            None => Err("Invalid u64 value at "@ + path),
        }
    } else if tag == "i64"@ {
        match int_in_range(vv, i64::MIN as int, i64::MAX as int) {
            Some(n) => Ok(HostValueView::I64(n as i64)),
            None => Err("Invalid i64 value at "@ + path),
        }
    } else if tag == "u128"@ {
        match int_in_range(vv, 0, u128::MAX as int) {
            Some(n) => Ok(HostValueView::U128(n as u128)),
            None => Err("Invalid u128 value at "@ + path),
        }
    } else if tag == "i128"@ {
        match int_in_range(vv, i128::MIN as int, i128::MAX as int) {
            Some(n) => Ok(HostValueView::I128(n as i128)),
            None => Err("Invalid i128 value at "@ + path),
        }
    } else if tag == "u256"@ {
        match int_text_of(vv) {
            Some(t) => {
                let stripped = strip_zeros(t);
                if t.len() > 0 && all_digits(t) && u256_text_wf(stripped) {
                    Ok(HostValueView::U256(stripped))
                } else {
                    Err("Invalid u256 value at "@ + path)
                }
            },
            None => Err("Invalid u256 value at "@ + path),
        }
    } else if tag == "i256"@ {
        match int_text_of(vv) {
            Some(t) => parse_i256_text(t, path),
            None => Err("Invalid i256 value at "@ + path),
        }
    } else if tag == "bool"@ {
        match vv {
            JsonValue::Bool(b) => Ok(HostValueView::Bool(b)),
            _ => Err("Invalid bool value at "@ + path),
        }
    } else if tag == "symbol"@ {
        match vv {
            JsonValue::String(s) => if symbol_wf(s@) {
                Ok(HostValueView::Symbol(s@))
            } else {
                Err("Invalid symbol value at "@ + path)
            },
            _ => Err("Invalid symbol value at "@ + path),
        }
    } else if tag == "string"@ {
        match vv {
            JsonValue::String(s) => Ok(HostValueView::Str(s@)),
            _ => Err("Invalid string value at "@ + path),
        }
    } else if tag == "bytes"@ {
        match vv {
            JsonValue::String(s) => if hex_wf(s@) {
                Ok(HostValueView::Bytes(hex_bytes(s@)))
            } else {
                Err("Invalid hex string at "@ + path)
            },
            _ => Err("Invalid hex string at "@ + path),
        }
    } else if tag == "address"@ {
        match vv {
            JsonValue::String(s) => if address_wf(s@) {
                Ok(HostValueView::Address(s@))
            } else {
                Err("Invalid address at "@ + path)
            },
            _ => Err("Invalid address at "@ + path),
        }
    } else if tag == "vec"@ {
        match vv {
            JsonValue::Array(xs) => match parse_list_spec(xs@, path, 0) {
                Ok(vs) => Ok(HostValueView::List(vs)),
                Err(m) => Err(m),
            },
            _ => Err("Invalid vec value at "@ + path),
        }
    } else if tag == "map"@ {
        match vv {
            JsonValue::Array(xs) => match parse_pairs_spec(xs@, path, 0) {
                Ok(ps) => Ok(HostValueView::MapVal(ps)),
                Err(m) => Err(m),
            },
            _ => Err("Invalid map value at "@ + path),
        }
    } else if tag == "option"@ {
        match vv {
            JsonValue::Null => Ok(HostValueView::OptVal(None)),
            _ => match parse_spec(vv, path + ".value"@) {
                Ok(v) => Ok(HostValueView::OptVal(Some(Box::new(v)))),
                Err(m) => Err(m),
            },
        }
    } else if tag == "tuple"@ {
        match vv {
            JsonValue::Array(xs) => {
                let arity_ok = match obj_lookup(f, "arity"@) {
                    None => true,
                    Some(av) => match av {
                        JsonValue::Number(n) => is_signed_dec(n@) && signed_dec_value(n@)
                            == xs@.len(),
                        _ => false,
                    },
                };
                if !arity_ok {
                    Err("Tuple arity mismatch at "@ + path)
                } else {
                    match parse_list_spec(xs@, path, 0) {
                        Ok(vs) => Ok(HostValueView::Tuple(vs)),
                        Err(m) => Err(m),
                    }
                }
            },
            _ => Err("Invalid tuple value at "@ + path),
        }
    } else if tag == "void"@ {
        match vv {
            JsonValue::Null => Ok(HostValueView::Void),
            _ => Err("Invalid void value at "@ + path),
        }
    } else {
        Err("Unknown type tag at "@ + path)
    }
}

/// The signed 256-bit value a text denotes.
pub open spec fn parse_i256_text(t: Seq<char>, path: Seq<char>) -> Result<
    HostValueView,
    Seq<char>,
> {
    if t.len() > 0 && t[0] == '-' {
        let mag = strip_zeros(t.drop_first());
        if t.drop_first().len() > 0 && all_digits(t.drop_first()) && canon_dec(mag) && canon_le(
            mag,
            i256_min_mag_text(),
        ) {
            if mag == seq!['0'] {
                Ok(HostValueView::I256(seq!['0']))
            } else {
                Ok(HostValueView::I256(seq!['-'] + mag))
            }
        } else {
            Err("Invalid i256 value at "@ + path)
        }
    } else {
        let mag = strip_zeros(t);
        if t.len() > 0 && all_digits(t) && canon_dec(mag) && canon_le(mag, i256_max_text()) {
            Ok(HostValueView::I256(mag))
        } else {
            Err("Invalid i256 value at "@ + path)
        }
    }
}

/// What parsing the elements from position `i` on yields.
pub open spec fn parse_list_spec(xs: Seq<JsonValue>, path: Seq<char>, i: int) -> Result<
    Seq<HostValueView>,
    Seq<char>,
>
    decreases crate::json::json_list_size(xs.skip(i)), 2int,
        when 0 <= i <= xs.len()
    via parse_list_spec_dec
{
    if i >= xs.len() {
        Ok(Seq::empty())
    } else {
        match parse_spec(xs[i], path_idx(path, i)) {
            Err(m) => Err(m),
            Ok(v) => match parse_list_spec(xs, path, i + 1) {
                Err(m) => Err(m),
                Ok(vs) => Ok(seq![v] + vs),
            },
        }
    }
}

/// What parsing the two-element entry arrays from position `i` on yields.
pub open spec fn parse_pairs_spec(xs: Seq<JsonValue>, path: Seq<char>, i: int) -> Result<
    Seq<(HostValueView, HostValueView)>,
    Seq<char>,
>
    decreases crate::json::json_list_size(xs.skip(i)), 2int,
        when 0 <= i <= xs.len()
    via parse_pairs_spec_dec
{
    if i >= xs.len() {
        Ok(Seq::empty())
    } else {
        match xs[i] {
            JsonValue::Array(kv) => if kv@.len() != 2 {
                Err("Invalid map entry at "@ + path_idx(path, i))
            } else {
                match parse_spec(kv@[0], path_idx(path_idx(path, i), 0)) {
                    Err(m) => Err(m),
                    Ok(k) => match parse_spec(kv@[1], path_idx(path_idx(path, i), 1)) {
                        Err(m) => Err(m),
                        Ok(v) => match parse_pairs_spec(xs, path, i + 1) {
                            Err(m) => Err(m),
                            Ok(ps) => Ok(seq![(k, v)] + ps),
                        },
                    },
                }
            },
            _ => Err("Invalid map entry at "@ + path_idx(path, i)),
        }
    }
}

#[via_fn]
proof fn parse_spec_dec(j: JsonValue, path: Seq<char>) {
    match j {
        JsonValue::Object(f) => {
            crate::json::lemma_obj_lookup_size(f@, "value"@);
        },
        _ => {
        },
    }
}

#[via_fn]
proof fn parse_tagged_dec(
    tag: Seq<char>,
    vv: JsonValue,
    f: Seq<(String, JsonValue)>,
    path: Seq<char>,
) {
    crate::json::lemma_obj_lookup_size(f, "value"@);
    match vv {
        JsonValue::Array(xs) => {
            assert(xs@.skip(0) =~= xs@);
            assert(crate::json::json_size(vv) == 1 + crate::json::json_list_size(xs@));
        },
        _ => {
        },
    }
}

#[via_fn]
proof fn parse_list_spec_dec(xs: Seq<JsonValue>, path: Seq<char>, i: int) {
    if 0 <= i < xs.len() {
        assert(xs.skip(i)[0] == xs[i]);
        assert(xs.skip(i).drop_first() =~= xs.skip(i + 1));
        assert(crate::json::json_list_size(xs.skip(i)) == crate::json::json_size(xs[i])
            + crate::json::json_list_size(xs.skip(i + 1)));
        crate::json::lemma_json_size_pos(xs[i]);
    }
}

#[via_fn]
proof fn parse_pairs_spec_dec(xs: Seq<JsonValue>, path: Seq<char>, i: int) {
    if 0 <= i < xs.len() {
        assert(xs.skip(i)[0] == xs[i]);
        assert(xs.skip(i).drop_first() =~= xs.skip(i + 1));
        assert(crate::json::json_list_size(xs.skip(i)) == crate::json::json_size(xs[i])
            + crate::json::json_list_size(xs.skip(i + 1)));
        crate::json::lemma_json_size_pos(xs[i]);
        match xs[i] {
            JsonValue::Array(kv) => {
                if kv@.len() == 2 {
                    crate::json::lemma_json_list_size_elem(kv@, 0);
                    crate::json::lemma_json_list_size_elem(kv@, 1);
                }
            },
            _ => {
            },
        }
    }
}

/// The text a numeric or string JSON value offers.
fn int_text<'a>(vv: &'a JsonValue) -> (r: Option<&'a String>)
    ensures
        match r {
            Some(s) => int_text_of(*vv) == Some(s@),
            None => int_text_of(*vv) is None,
        },
{
    match vv {
        JsonValue::Number(n) => Some(n),
        JsonValue::String(s) => Some(s),
        _ => None,
    }
}

/// The integer a JSON value denotes within a signed 128-bit subrange.
fn int_in_range_exec(vv: &JsonValue, lo: i128, hi: i128) -> (r: Option<i128>)
    ensures
        match r {
            Some(n) => int_in_range(*vv, lo as int, hi as int) == Some(n as int),
            None => int_in_range(*vv, lo as int, hi as int) is None,
        },
{
    let t = match int_text(vv) {
        None => {
            return None;
        },
        Some(t) => t,
    };
    let cs = crate::strutil::chars_of(t.as_str());
    match crate::decimal::parse_dec_i128(cs.as_slice()) {
        None => {
            proof {
                if is_signed_dec(t@) {
                    assert(signed_dec_value(t@) < i128::MIN || signed_dec_value(t@)
                        > i128::MAX);
                }
            }
            None
        },
        Some(v) => {
            if lo <= v && v <= hi {
                Some(v)
            } else {
                None
            }
        },
    }
}

/// The unsigned 128-bit integer a JSON value denotes.
fn u128_in_range_exec(vv: &JsonValue) -> (r: Option<u128>)
    ensures
        match r {
            Some(n) => int_in_range(*vv, 0, u128::MAX as int) == Some(n as int),
            None => int_in_range(*vv, 0, u128::MAX as int) is None,
        },
{
    let t = match int_text(vv) {
        None => {
            return None;
        },
        Some(t) => t,
    };
    let cs = crate::strutil::chars_of(t.as_str());
    if cs.len() == 0 {
        return None;
    }
    let neg = cs[0] == '-';
    let digits = if cs[0] == '-' || cs[0] == '+' {
        vstd::slice::slice_subrange(cs.as_slice(), 1, cs.len())
    } else {
        vstd::slice::slice_subrange(cs.as_slice(), 0, cs.len())
    };
    proof {
        if t@[0] == '-' || t@[0] == '+' {
            assert(digits@ =~= t@.drop_first());
        } else {
            assert(digits@ =~= t@);
        }
    }
    match crate::decimal::parse_dec_u128(digits) {
        None => None,
        Some(mag) => {
            if neg {
                if mag == 0 {
                    Some(0)
                } else {
                    None
                }
            } else {
                Some(mag)
            }
        },
    }
}

/// Stripping zeros from a non-empty digit string leaves a canonical decimal
/// of the same digits.
proof fn lemma_strip_canon(t: Seq<char>)
    requires
        t.len() > 0,
        all_digits(t),
    ensures
        canon_dec(strip_zeros(t)),
    decreases t.len(),
{
    if t.len() > 1 && t[0] == '0' {
        assert(all_digits(t.drop_first())) by {
            assert(forall|i: int|
                0 <= i < t.drop_first().len() ==> #[trigger] t.drop_first()[i] == t[i + 1]);
        }
        lemma_strip_canon(t.drop_first());
    }
}

/// The text is a valid symbol.
pub fn is_symbol(s: &str) -> (r: bool)
    ensures
        r == symbol_wf(s@),
{
    let cs = crate::strutil::chars_of(s);
    if cs.len() < 1 || cs.len() > 32 {
        return false;
    }
    let h = cs[0];
    if !(('a' <= h && h <= 'z') || ('A' <= h && h <= 'Z') || h == '_') {
        return false;
    }
    let mut i: usize = 1;
    while i < cs.len()
        invariant
            1 <= i <= cs@.len(),
            cs@ == s@,
            forall|j: int| 1 <= j < i ==> symbol_tail(#[trigger] s@[j]),
        decreases cs@.len() - i,
    {
        let c = cs[i];
        if !(('a' <= c && c <= 'z') || ('A' <= c && c <= 'Z') || c == '_' || ('0' <= c && c
            <= '9')) {
            return false;
        }
        i += 1;
    }
    true
}

/// The text is a valid address.
pub fn is_address(s: &str) -> (r: bool)
    ensures
        r == address_wf(s@),
{
    let cs = crate::strutil::chars_of(s);
    cs.len() >= 10 && (cs[0] == 'G' || cs[0] == 'C')
}

/// Parse one JSON document into a host value; `path` names the position for
/// error messages.
pub fn parse_value(j: &JsonValue, path: &[char]) -> (r: Result<HostValue, crate::DebuggerError>)
    ensures
        match r {
            Ok(h) => parse_spec(*j, path@) == Ok::<HostValueView, Seq<char>>(h@),
            Err(e) => parse_spec(*j, path@) is Err && (match e {
                crate::DebuggerError::InvalidArguments(m) => m@ == parse_spec(*j, path@)
                    ->Err_0,
                _ => false,
            }),
        },
    decreases crate::json::json_size(*j), 0int,
{
    match j {
        JsonValue::Null => Ok(HostValue::Void),
        JsonValue::Bool(b) => Ok(HostValue::Bool(*b)),
        JsonValue::Number(n) => {
            let cs = crate::strutil::chars_of(n.as_str());
            match crate::decimal::parse_dec_i128(cs.as_slice()) {
                Some(v) => {
                    if i32::MIN as i128 <= v && v <= i32::MAX as i128 {
                        Ok(HostValue::I32(v as i32))
                    } else if i64::MIN as i128 <= v && v <= i64::MAX as i128 {
                        Ok(HostValue::I64(v as i64))
                    } else if 0 <= v && v <= u64::MAX as i128 {
                        Ok(HostValue::U64(v as u64))
                    } else {
                        Ok(HostValue::I128(v))
                    }
                },
                None => {
                    match u128_in_range_exec(j) {
                        Some(v) => {
                            proof {
                                assert(v > i128::MAX as u128);
                            }
                            Ok(HostValue::U128(v))
                        },
                        None => {
                            let mut m = "Unsupported number at ".to_owned();
                            m.append(crate::strutil::string_of(path).as_str());
                            Err(crate::DebuggerError::InvalidArguments(m))
                        },
                    }
                },
            }
        },
        JsonValue::String(s) => {
            if is_symbol(s.as_str()) {
                Ok(HostValue::Symbol(crate::kv::clone_string(s)))
            } else {
                Ok(HostValue::Str(crate::kv::clone_string(s)))
            }
        },
        JsonValue::Array(_) => {
            let mut m = "Missing type annotation at ".to_owned();
            m.append(crate::strutil::string_of(path).as_str());
            Err(crate::DebuggerError::InvalidArguments(m))
        },
        JsonValue::Object(f) => {
            let tkey = crate::strutil::chars_of("type");
            let vkey = crate::strutil::chars_of("value");
            let tv = crate::json::obj_get(f, tkey.as_slice());
            let vv = crate::json::obj_get(f, vkey.as_slice());
            match (tv, vv) {
                (Some(tv), Some(vv)) => match tv {
                    JsonValue::String(tag) => parse_tagged_exec(tag, vv, f, path),
                    _ => {
                        let mut m = "Type tag must be a string at ".to_owned();
                        m.append(crate::strutil::string_of(path).as_str());
                        Err(crate::DebuggerError::InvalidArguments(m))
                    },
                },
                _ => {
                    let mut m = "Missing type annotation at ".to_owned();
                    m.append(crate::strutil::string_of(path).as_str());
                    Err(crate::DebuggerError::InvalidArguments(m))
                },
            }
        },
    }
}

/// Every character is a decimal digit.
fn all_digits_exec(cs: &[char]) -> (r: bool)
    ensures
        r == all_digits(cs@),
{
    let mut i: usize = 0;
    while i < cs.len()
        invariant
            i <= cs@.len(),
            forall|j: int| 0 <= j < i ==> crate::decimal::is_digit(#[trigger] cs@[j]),
        decreases cs@.len() - i,
    {
        let c = cs[i];
        if c < '0' || c > '9' {
            return false;
        }
        i += 1;
    }
    true
}

/// Build the error for an invalid value of the named kind.
fn kind_err(prefix: &str, path: &[char]) -> (r: crate::DebuggerError)
    ensures
        r matches crate::DebuggerError::InvalidArguments(m) && m@ == prefix@ + path@,
{
    let mut m = String::new();
    m.append(prefix);
    m.append(crate::strutil::string_of(path).as_str());
    crate::DebuggerError::InvalidArguments(m)
}

/// Parse a typed envelope by its tag.
fn parse_tagged_exec(
    tag: &String,
    vv: &JsonValue,
    f: &Vec<(String, JsonValue)>,
    path: &[char],
) -> (r: Result<HostValue, crate::DebuggerError>)
    requires
        obj_lookup(f@, "value"@) == Some(*vv),
    ensures
        match r {
            Ok(h) => parse_tagged(tag@, *vv, f@, path@) == Ok::<HostValueView, Seq<char>>(h@),
            Err(e) => parse_tagged(tag@, *vv, f@, path@) is Err && (match e {
                crate::DebuggerError::InvalidArguments(m) => m@ == parse_tagged(
                    tag@,
                    *vv,
                    f@,
                    path@,
                )->Err_0,
                _ => false,
            }),
        },
    decreases crate::json::json_fields_size(f@), 3int,
{
    let tc = crate::strutil::chars_of(tag.as_str());
    if crate::strutil::chars_eq(tc.as_slice(), crate::strutil::chars_of("u32").as_slice()) {
        match int_in_range_exec(vv, 0, u32::MAX as i128) {
            Some(n) => Ok(HostValue::U32(n as u32)),
            None => Err(kind_err("Invalid u32 value at ", path)),
        }
    } else if crate::strutil::chars_eq(
        tc.as_slice(),
        crate::strutil::chars_of("i32").as_slice(),
    ) {
        match int_in_range_exec(vv, i32::MIN as i128, i32::MAX as i128) {
            Some(n) => Ok(HostValue::I32(n as i32)),
            None => Err(kind_err("Invalid i32 value at ", path)),
        }
    } else if crate::strutil::chars_eq(
        tc.as_slice(),
        crate::strutil::chars_of("u64").as_slice(),
    ) {
        match int_in_range_exec(vv, 0, u64::MAX as i128) {
            Some(n) => Ok(HostValue::U64(n as u64)),
            None => Err(kind_err("Invalid u64 value at ", path)),
        }
    } else if crate::strutil::chars_eq(
        tc.as_slice(),
        crate::strutil::chars_of("i64").as_slice(),
    ) {
        match int_in_range_exec(vv, i64::MIN as i128, i64::MAX as i128) {
            Some(n) => Ok(HostValue::I64(n as i64)),
            None => Err(kind_err("Invalid i64 value at ", path)),
        }
    } else if crate::strutil::chars_eq(
        tc.as_slice(),
        crate::strutil::chars_of("u128").as_slice(),
    ) {
        match u128_in_range_exec(vv) {
            Some(n) => Ok(HostValue::U128(n)),
            None => Err(kind_err("Invalid u128 value at ", path)),
        }
    } else if crate::strutil::chars_eq(
        tc.as_slice(),
        crate::strutil::chars_of("i128").as_slice(),
    ) {
        match int_in_range_exec(vv, i128::MIN, i128::MAX) {
            Some(n) => Ok(HostValue::I128(n)),
            None => Err(kind_err("Invalid i128 value at ", path)),
        }
    } else if crate::strutil::chars_eq(
        tc.as_slice(),
        crate::strutil::chars_of("u256").as_slice(),
    ) {
        match int_text(vv) {
            Some(t) => {
                let cs = crate::strutil::chars_of(t.as_str());
                if cs.len() > 0 && all_digits_exec(cs.as_slice()) {
                    let stripped = strip_zeros_exec(cs.as_slice());
                    proof {
                        lemma_strip_canon(t@);
                    }
                    if canon_le_exec(
                        stripped.as_slice(),
                        "115792089237316195423570985008687907853269984665640564039457584007913129639935",
                    ) {
                        Ok(HostValue::U256(crate::strutil::string_of(stripped.as_slice())))
                    } else {
                        Err(kind_err("Invalid u256 value at ", path))
                    }
                } else {
                    Err(kind_err("Invalid u256 value at ", path))
                }
            },
            None => Err(kind_err("Invalid u256 value at ", path)),
        }
    } else if crate::strutil::chars_eq(
        tc.as_slice(),
        crate::strutil::chars_of("i256").as_slice(),
    ) {
        match int_text(vv) {
            Some(t) => {
                let cs = crate::strutil::chars_of(t.as_str());
                if cs.len() > 0 && cs[0] == '-' {
                    let digits = vstd::slice::slice_subrange(cs.as_slice(), 1, cs.len());
                    proof {
                        assert(digits@ =~= t@.drop_first());
                    }
                    if digits.len() > 0 && all_digits_exec(digits) {
                        let mag = strip_zeros_exec(digits);
                        proof {
                            lemma_strip_canon(t@.drop_first());
                        }
                        if canon_le_exec(
                            mag.as_slice(),
                            "57896044618658097711785492504343953926634992332820282019728792003956564819968",
                        ) {
                            let mut zero: Vec<char> = Vec::new();
                            zero.push('0');
                            if crate::strutil::chars_eq(mag.as_slice(), zero.as_slice()) {
                                proof {
                                    assert(zero@ =~= seq!['0']);
                                }
                                Ok(HostValue::I256(crate::strutil::string_of(zero.as_slice())))
                            } else {
                                let mut signed: Vec<char> = Vec::new();
                                signed.push('-');
                                crate::json::append_chars(&mut signed, mag.as_slice());
                                proof {
                                    assert(zero@ =~= seq!['0']);
                                    assert(signed@ =~= seq!['-'] + mag@);
                                }
                                Ok(
                                    HostValue::I256(
                                        crate::strutil::string_of(signed.as_slice()),
                                    ),
                                )
                            }
                        } else {
                            Err(kind_err("Invalid i256 value at ", path))
                        }
                    } else {
                        Err(kind_err("Invalid i256 value at ", path))
                    }
                } else if cs.len() > 0 && all_digits_exec(cs.as_slice()) {
                    let mag = strip_zeros_exec(cs.as_slice());
                    proof {
                        lemma_strip_canon(t@);
                    }
                    if canon_le_exec(
                        mag.as_slice(),
                        "57896044618658097711785492504343953926634992332820282019728792003956564819967",
                    ) {
                        Ok(HostValue::I256(crate::strutil::string_of(mag.as_slice())))
                    } else {
                        Err(kind_err("Invalid i256 value at ", path))
                    }
                } else {
                    Err(kind_err("Invalid i256 value at ", path))
                }
            },
            None => Err(kind_err("Invalid i256 value at ", path)),
        }
    } else if crate::strutil::chars_eq(
        tc.as_slice(),
        crate::strutil::chars_of("bool").as_slice(),
    ) {
        match vv {
            JsonValue::Bool(b) => Ok(HostValue::Bool(*b)),
            _ => Err(kind_err("Invalid bool value at ", path)),
        }
    } else if crate::strutil::chars_eq(
        tc.as_slice(),
        crate::strutil::chars_of("symbol").as_slice(),
    ) {
        match vv {
            JsonValue::String(s) => {
                if is_symbol(s.as_str()) {
                    Ok(HostValue::Symbol(crate::kv::clone_string(s)))
                } else {
                    Err(kind_err("Invalid symbol value at ", path))
                }
            },
            _ => Err(kind_err("Invalid symbol value at ", path)),
        }
    } else if crate::strutil::chars_eq(
        tc.as_slice(),
        crate::strutil::chars_of("string").as_slice(),
    ) {
        match vv {
            JsonValue::String(s) => Ok(HostValue::Str(crate::kv::clone_string(s))),
            _ => Err(kind_err("Invalid string value at ", path)),
        }
    } else if crate::strutil::chars_eq(
        tc.as_slice(),
        crate::strutil::chars_of("bytes").as_slice(),
    ) {
        match vv {
            JsonValue::String(s) => {
                let cs = crate::strutil::chars_of(s.as_str());
                match decode_hex(cs.as_slice()) {
                    Some(b) => Ok(HostValue::Bytes(b)),
                    None => Err(kind_err("Invalid hex string at ", path)),
                }
            },
            _ => Err(kind_err("Invalid hex string at ", path)),
        }
    } else if crate::strutil::chars_eq(
        tc.as_slice(),
        crate::strutil::chars_of("address").as_slice(),
    ) {
        match vv {
            JsonValue::String(s) => {
                if is_address(s.as_str()) {
                    Ok(HostValue::Address(crate::kv::clone_string(s)))
                } else {
                    Err(kind_err("Invalid address at ", path))
                }
            },
            _ => Err(kind_err("Invalid address at ", path)),
        }
    } else if crate::strutil::chars_eq(
        tc.as_slice(),
        crate::strutil::chars_of("vec").as_slice(),
    ) {
        match vv {
            JsonValue::Array(xs) => {
                proof {
                    crate::json::lemma_obj_lookup_size(f@, "value"@);
                    assert(xs@.skip(0) =~= xs@);
                }
                match parse_list_exec(xs, path, 0) {
                    Ok(vs) => Ok(HostValue::List(vs)),
                    Err(e) => Err(e),
                }
            },
            _ => Err(kind_err("Invalid vec value at ", path)),
        }
    } else if crate::strutil::chars_eq(
        tc.as_slice(),
        crate::strutil::chars_of("map").as_slice(),
    ) {
        match vv {
            JsonValue::Array(xs) => {
                proof {
                    crate::json::lemma_obj_lookup_size(f@, "value"@);
                    assert(xs@.skip(0) =~= xs@);
                }
                match parse_pairs_exec(xs, path, 0) {
                    Ok(ps) => Ok(HostValue::MapVal(ps)),
                    Err(e) => Err(e),
                }
            },
            _ => Err(kind_err("Invalid map value at ", path)),
        }
    } else if crate::strutil::chars_eq(
        tc.as_slice(),
        crate::strutil::chars_of("option").as_slice(),
    ) {
        match vv {
            JsonValue::Null => Ok(HostValue::OptVal(None)),
            _ => {
                let mut np: Vec<char> = Vec::new();
                crate::json::append_chars(&mut np, path);
                let suffix = crate::strutil::chars_of(".value");
                crate::json::append_chars(&mut np, suffix.as_slice());
                proof {
                    crate::json::lemma_obj_lookup_size(f@, "value"@);
                    assert(np@ =~= path@ + ".value"@);
                }
                match parse_value(vv, np.as_slice()) {
                    Ok(v) => Ok(HostValue::OptVal(Some(Box::new(v)))),
                    Err(e) => Err(e),
                }
            },
        }
    } else if crate::strutil::chars_eq(
        tc.as_slice(),
        crate::strutil::chars_of("tuple").as_slice(),
    ) {
        match vv {
            JsonValue::Array(xs) => {
                let akey = crate::strutil::chars_of("arity");
                let arity_ok = match crate::json::obj_get(f, akey.as_slice()) {
                    None => true,
                    Some(av) => match av {
                        JsonValue::Number(n) => {
                            let nc = crate::strutil::chars_of(n.as_str());
                            let xlen = xs.len();
                            match crate::decimal::parse_dec_i128(nc.as_slice()) {
                                Some(v) => v >= 0 && v == xlen as i128,
                                None => {
                                    proof {
                                        if is_signed_dec(n@) {
                                            assert(signed_dec_value(n@) > i128::MAX
                                                || signed_dec_value(n@) < i128::MIN);
                                            assert(xlen <= usize::MAX);
                                        }
                                    }
                                    false
                                },
                            }
                        },
                        _ => false,
                    },
                };
                if !arity_ok {
                    Err(kind_err("Tuple arity mismatch at ", path))
                } else {
                    proof {
                        crate::json::lemma_obj_lookup_size(f@, "value"@);
                        assert(xs@.skip(0) =~= xs@);
                    }
                    match parse_list_exec(xs, path, 0) {
                        Ok(vs) => Ok(HostValue::Tuple(vs)),
                        Err(e) => Err(e),
                    }
                }
            },
            _ => Err(kind_err("Invalid tuple value at ", path)),
        }
    } else if crate::strutil::chars_eq(
        tc.as_slice(),
        crate::strutil::chars_of("void").as_slice(),
    ) {
        match vv {
            JsonValue::Null => Ok(HostValue::Void),
            _ => Err(kind_err("Invalid void value at ", path)),
        }
    } else {
        Err(kind_err("Unknown type tag at ", path))
    }
}

/// Parse the elements of an array from position `i` on.
fn parse_list_exec(xs: &Vec<JsonValue>, path: &[char], i: usize) -> (r: Result<
    Vec<HostValue>,
    crate::DebuggerError,
>)
    requires
        i <= xs@.len(),
    ensures
        match r {
            Ok(vs) => parse_list_spec(xs@, path@, i as int) == Ok::<
                Seq<HostValueView>,
                Seq<char>,
            >(host_views(vs@)),
            Err(e) => parse_list_spec(xs@, path@, i as int) is Err && (match e {
                crate::DebuggerError::InvalidArguments(m) => m@ == parse_list_spec(
                    xs@,
                    path@,
                    i as int,
                )->Err_0,
                _ => false,
            }),
        },
    decreases crate::json::json_list_size(xs@.skip(i as int)), 2int,
{
    let mut out: Vec<HostValue> = Vec::new();
    let mut k = i;
    proof {
        assert(host_views(out@) =~= Seq::<HostValueView>::empty());
    }
    while k < xs.len()
        invariant
            i <= k <= xs@.len(),
            match parse_list_spec(xs@, path@, k as int) {
                Ok(rest) => parse_list_spec(xs@, path@, i as int) == Ok::<
                    Seq<HostValueView>,
                    Seq<char>,
                >(host_views(out@) + rest),
                Err(m) => parse_list_spec(xs@, path@, i as int) == Err::<
                    Seq<HostValueView>,
                    Seq<char>,
                >(m),
            },
        decreases xs@.len() - k,
    {
        let mut ep: Vec<char> = Vec::new();
        crate::json::append_chars(&mut ep, path);
        ep.push('[');
        let kd = crate::decimal::u128_to_dec(k as u128);
        crate::json::append_chars(&mut ep, kd.as_slice());
        ep.push(']');
        proof {
            assert(ep@ =~= path_idx(path@, k as int));
            assert(xs@.skip(i as int)[k - i] == xs@[k as int]);
            crate::json::lemma_json_list_size_elem(xs@.skip(i as int), k - i);
        }
        match parse_value(&xs[k], ep.as_slice()) {
            Ok(v) => {
                let ghost pre = out@;
                out.push(v);
                proof {
                    assert(out@.drop_last() =~= pre);
                    assert(host_views(out@) =~= host_views(pre).push(v@));
                    if parse_list_spec(xs@, path@, k + 1) is Ok {
                        let rest = parse_list_spec(xs@, path@, k + 1)->Ok_0;
                        assert(host_views(pre) + (seq![v@] + rest) =~= host_views(out@)
                            + rest);
                    }
                }
            },
            Err(e) => {
                return Err(e);
            },
        }
        k += 1;
    }
    proof {
        assert(host_views(out@) + Seq::<HostValueView>::empty() =~= host_views(out@));
    }
    Ok(out)
}

/// Parse the two-element entry arrays of a map from position `i` on.
fn parse_pairs_exec(xs: &Vec<JsonValue>, path: &[char], i: usize) -> (r: Result<
    Vec<(HostValue, HostValue)>,
    crate::DebuggerError,
>)
    requires
        i <= xs@.len(),
    ensures
        match r {
            Ok(ps) => parse_pairs_spec(xs@, path@, i as int) == Ok::<
                Seq<(HostValueView, HostValueView)>,
                Seq<char>,
            >(host_pair_views(ps@)),
            Err(e) => parse_pairs_spec(xs@, path@, i as int) is Err && (match e {
                crate::DebuggerError::InvalidArguments(m) => m@ == parse_pairs_spec(
                    xs@,
                    path@,
                    i as int,
                )->Err_0,
                _ => false,
            }),
        },
    decreases crate::json::json_list_size(xs@.skip(i as int)), 2int,
{
    let mut out: Vec<(HostValue, HostValue)> = Vec::new();
    let mut k = i;
    proof {
        assert(host_pair_views(out@) =~= Seq::<(HostValueView, HostValueView)>::empty());
    }
    while k < xs.len()
        invariant
            i <= k <= xs@.len(),
            match parse_pairs_spec(xs@, path@, k as int) {
                Ok(rest) => parse_pairs_spec(xs@, path@, i as int) == Ok::<
                    Seq<(HostValueView, HostValueView)>,
                    Seq<char>,
                >(host_pair_views(out@) + rest),
                Err(m) => parse_pairs_spec(xs@, path@, i as int) == Err::<
                    Seq<(HostValueView, HostValueView)>,
                    Seq<char>,
                >(m),
            },
        decreases xs@.len() - k,
    {
        let mut ep: Vec<char> = Vec::new();
        crate::json::append_chars(&mut ep, path);
        ep.push('[');
        let kd = crate::decimal::u128_to_dec(k as u128);
        crate::json::append_chars(&mut ep, kd.as_slice());
        ep.push(']');
        proof {
            assert(ep@ =~= path_idx(path@, k as int));
            assert(xs@.skip(i as int)[k - i] == xs@[k as int]);
            crate::json::lemma_json_list_size_elem(xs@.skip(i as int), k - i);
        }
        match &xs[k] {
            JsonValue::Array(kv) => {
                if kv.len() != 2 {
                    return Err(kind_err("Invalid map entry at ", ep.as_slice()));
                }
                let mut kp: Vec<char> = Vec::new();
                crate::json::append_chars(&mut kp, ep.as_slice());
                kp.push('[');
                kp.push('0');
                kp.push(']');
                let mut vp: Vec<char> = Vec::new();
                crate::json::append_chars(&mut vp, ep.as_slice());
                vp.push('[');
                vp.push('1');
                vp.push(']');
                proof {
                    assert(crate::decimal::dec_of(0) =~= seq!['0']);
                    assert(crate::decimal::dec_of(1) =~= seq!['1']);
                    assert(kp@ =~= path_idx(path_idx(path@, k as int), 0));
                    assert(vp@ =~= path_idx(path_idx(path@, k as int), 1));
                    crate::json::lemma_json_list_size_elem(kv@, 0);
                    crate::json::lemma_json_list_size_elem(kv@, 1);
                }
                let pk = match parse_value(&kv[0], kp.as_slice()) {
                    Ok(v) => v,
                    Err(e) => {
                        return Err(e);
                    },
                };
                let pv = match parse_value(&kv[1], vp.as_slice()) {
                    Ok(v) => v,
                    Err(e) => {
                        return Err(e);
                    },
                };
                let ghost pre = out@;
                let ghost gk = pk@;
                let ghost gv = pv@;
                out.push((pk, pv));
                proof {
                    assert(out@.drop_last() =~= pre);
                    assert(host_pair_views(out@) =~= host_pair_views(pre).push((gk, gv)));
                    if parse_pairs_spec(xs@, path@, k + 1) is Ok {
                        let rest = parse_pairs_spec(xs@, path@, k + 1)->Ok_0;
                        assert(host_pair_views(pre) + (seq![(gk, gv)] + rest)
                            =~= host_pair_views(out@) + rest);
                    }
                }
            },
            _ => {
                return Err(kind_err("Invalid map entry at ", ep.as_slice()));
            },
        }
        k += 1;
    }
    proof {
        assert(host_pair_views(out@) + Seq::<(HostValueView, HostValueView)>::empty()
            =~= host_pair_views(out@));
    }
    Ok(out)
}

/// Parse an argument JSON string against the contract's spec-section
/// signatures: the document must be an array; each element is normalised
/// against the matching parameter and then read as a host value.
pub fn parse_args(
    signatures: &Vec<crate::parser::SpecFunction>,
    function: &str,
    args_json: &str,
) -> (r: Result<Vec<HostValue>, crate::DebuggerError>)
    ensures
        match r {
            Ok(vs) => match crate::json::json_parse_of(args_json@) {
                Some(doc) => doc matches JsonValue::Array(xs) && exists|out: Seq<JsonValue>|
                    #[trigger] crate::parser::normalize_seq_ok(
                        spec_params_of(crate::parser::spec_fn_views(signatures@), function@),
                        xs@,
                        out,
                    ) && parse_list_spec(out, "args"@, 0) == Ok::<
                        Seq<HostValueView>,
                        Seq<char>,
                    >(host_views(vs@)),
                None => false,
            },
            Err(e) => (match e {
                crate::DebuggerError::InvalidArguments(m) => match crate::json::json_parse_of(
                    args_json@,
                ) {
                    None => m@ == "Invalid JSON in --args"@,
                    Some(doc) => match doc {
                        JsonValue::Array(xs) => match crate::parser::normalize_seq_err(
                            spec_params_of(
                                crate::parser::spec_fn_views(signatures@),
                                function@,
                            ),
                            xs@,
                            0,
                        ) {
                            Some(msg) => m@ == msg,
                            None => exists|out: Seq<JsonValue>|
                                #[trigger] crate::parser::normalize_seq_ok(
                                    spec_params_of(
                                        crate::parser::spec_fn_views(signatures@),
                                        function@,
                                    ),
                                    xs@,
                                    out,
                                ) && parse_list_spec(out, "args"@, 0) == Err::<
                                    Seq<HostValueView>,
                                    Seq<char>,
                                >(m@),
                        },
                        _ => m@ == "Arguments must be a JSON array"@,
                    },
                },
                _ => false,
            }),
        },
{
    let doc = match crate::json::json_parse(args_json) {
        None => {
            return Err(
                crate::DebuggerError::InvalidArguments("Invalid JSON in --args".to_owned()),
            );
        },
        Some(doc) => doc,
    };
    let mut xs = match doc {
        JsonValue::Array(xs) => xs,
        _ => {
            return Err(
                crate::DebuggerError::InvalidArguments(
                    "Arguments must be a JSON array".to_owned(),
                ),
            );
        },
    };
    let ghost sv = crate::parser::spec_fn_views(signatures@);
    let empty_params: Vec<crate::parser::SpecParam> = Vec::new();
    let fc = crate::strutil::chars_of(function);
    let found = crate::parser::find_sig_index(signatures, fc.as_slice());
    let params = match found {
        Some(k) => &signatures[k].params,
        None => &empty_params,
    };
    proof {
        assert(params@.map_values(|p: crate::parser::SpecParam| p@) =~= spec_params_of(
            sv,
            function@,
        ));
    }
    match crate::parser::normalize_values(params, &mut xs) {
        Ok(u) => {
        },
        Err(e) => {
            return Err(e);
        },
    }
    let path = crate::strutil::chars_of("args");
    match parse_list_exec(&xs, path.as_slice(), 0) {
        Ok(vs) => {
            proof {
                assert(xs@.skip(0) =~= xs@);
            }
            Ok(vs)
        },
        Err(e) => Err(e),
    }
}

/// The parameters normalisation uses for a function: those of the first
/// spec-section entry bearing its name, or none.
pub open spec fn spec_params_of(
    sv: Seq<crate::parser::SpecFunctionView>,
    fname: Seq<char>,
) -> Seq<crate::parser::SpecParamView> {
    match crate::parser::find_spec_fn(sv, fname) {
        None => Seq::empty(),
        Some(f) => f.params,
    }
}

/// The hex text of a byte sequence, lowercase.
pub open spec fn hex_of(bs: Seq<u8>) -> Seq<char>
    decreases bs.len(),
{
    if bs.len() == 0 {
        Seq::empty()
    } else {
        hex_of(bs.drop_last()) + seq![
            crate::json::hex_digit_char((bs.last() / 16) as nat),
            crate::json::hex_digit_char((bs.last() % 16) as nat),
        ]
    }
}

/// `j` is an envelope whose value is a number with the given integer text.
pub open spec fn env_num(j: JsonValue, tag: Seq<char>, n: int) -> bool {
    match j {
        JsonValue::Object(f) => f@.len() == 2 && f@[0].0@ == "type"@ && (match f@[0].1 {
            JsonValue::String(s) => s@ == tag,
            _ => false,
        }) && f@[1].0@ == "value"@ && (match f@[1].1 {
            JsonValue::Number(m) => m@ == dec_of_int(n),
            _ => false,
        }),
        _ => false,
    }
}

/// `j` is an envelope whose value is the given string text.
pub open spec fn env_str(j: JsonValue, tag: Seq<char>, text: Seq<char>) -> bool {
    match j {
        JsonValue::Object(f) => f@.len() == 2 && f@[0].0@ == "type"@ && (match f@[0].1 {
            JsonValue::String(s) => s@ == tag,
            _ => false,
        }) && f@[1].0@ == "value"@ && (match f@[1].1 {
            JsonValue::String(s) => s@ == text,
            _ => false,
        }),
        _ => false,
    }
}

/// `j` is the serialised envelope of the host value `h`: the typed envelope
/// the argument parser reads back.
pub open spec fn serialized_as(h: HostValue, j: JsonValue) -> bool
    decreases h,
{
    match h {
        HostValue::Void => crate::parser::envelope2(j, "void"@, JsonValue::Null),
        HostValue::Bool(b) => crate::parser::envelope2(j, "bool"@, JsonValue::Bool(b)),
        HostValue::U32(n) => env_num(j, "u32"@, n as int),
        HostValue::I32(n) => env_num(j, "i32"@, n as int),
        HostValue::U64(n) => env_num(j, "u64"@, n as int),
        HostValue::I64(n) => env_num(j, "i64"@, n as int),
        HostValue::U128(n) => env_str(j, "u128"@, dec_of(n as nat)),
        HostValue::I128(n) => env_str(j, "i128"@, dec_of_int(n as int)),
        HostValue::U256(s) => env_str(j, "u256"@, s@),
        HostValue::I256(s) => env_str(j, "i256"@, s@),
        HostValue::Symbol(s) => env_str(j, "symbol"@, s@),
        HostValue::Str(s) => env_str(j, "string"@, s@),
        HostValue::Bytes(b) => env_str(j, "bytes"@, hex_of(b@)),
        HostValue::Address(s) => env_str(j, "address"@, s@),
        HostValue::List(xs) => match j {
            JsonValue::Object(f) => f@.len() == 2 && f@[0].0@ == "type"@ && (match f@[0].1 {
                JsonValue::String(s) => s@ == "vec"@,
                _ => false,
            }) && f@[1].0@ == "value"@ && (match f@[1].1 {
                JsonValue::Array(ys) => serialized_list(xs@, ys@),
                _ => false,
            }),
            _ => false,
        },
        HostValue::MapVal(ps) => match j {
            JsonValue::Object(f) => f@.len() == 2 && f@[0].0@ == "type"@ && (match f@[0].1 {
                JsonValue::String(s) => s@ == "map"@,
                _ => false,
            }) && f@[1].0@ == "value"@ && (match f@[1].1 {
                JsonValue::Array(ys) => serialized_pairs(ps@, ys@),
                _ => false,
            }),
            _ => false,
        },
        HostValue::OptVal(o) => match o {
            None => crate::parser::envelope2(j, "option"@, JsonValue::Null),
            Some(inner) => match j {
                JsonValue::Object(f) => f@.len() == 2 && f@[0].0@ == "type"@
                    && (match f@[0].1 {
                    JsonValue::String(s) => s@ == "option"@,
                    _ => false,
                }) && f@[1].0@ == "value"@ && !(f@[1].1 is Null) && serialized_as(
                    *inner,
                    f@[1].1,
                ),
                _ => false,
            },
        },
        HostValue::Tuple(xs) => match j {
            JsonValue::Object(f) => f@.len() == 3 && f@[0].0@ == "arity"@ && (match f@[0].1 {
                JsonValue::Number(m) => m@ == dec_of(xs@.len()),
                _ => false,
            }) && f@[1].0@ == "type"@ && (match f@[1].1 {
                JsonValue::String(s) => s@ == "tuple"@,
                _ => false,
            }) && f@[2].0@ == "value"@ && (match f@[2].1 {
                JsonValue::Array(ys) => serialized_list(xs@, ys@),
                _ => false,
            }),
            _ => false,
        },
    }
}

/// Each element of `ys` is the envelope of the matching element of `xs`.
pub open spec fn serialized_list(xs: Seq<HostValue>, ys: Seq<JsonValue>) -> bool
    decreases xs,
{
    xs.len() == ys.len() && (xs.len() == 0 || (serialized_as(xs[0], ys[0]) && serialized_list(
        xs.drop_first(),
        ys.drop_first(),
    )))
}

/// Each element of `ys` is a two-element array holding the envelopes of the
/// matching entry of `ps`.
pub open spec fn serialized_pairs(
    ps: Seq<(HostValue, HostValue)>,
    ys: Seq<JsonValue>,
) -> bool
    decreases ps,
{
    ps.len() == ys.len() && (ps.len() == 0 || ((match ys[0] {
        JsonValue::Array(kv) => kv@.len() == 2 && serialized_as(ps[0].0, kv@[0])
            && serialized_as(ps[0].1, kv@[1]),
        _ => false,
    }) && serialized_pairs(ps.drop_first(), ys.drop_first())))
}

/// Structural size of a host value, the termination measure of the
/// serialiser.
pub open spec fn host_size(v: HostValue) -> nat
    decreases v,
{
    match v {
        HostValue::List(xs) => 1 + host_sizes(xs@),
        HostValue::Tuple(xs) => 1 + host_sizes(xs@),
        HostValue::MapVal(ps) => 1 + host_pair_sizes(ps@),
        HostValue::OptVal(o) => match o {
            None => 1,
            Some(b) => 1 + host_size(*b),
        },
        _ => 1,
    }
}

/// Combined size of a value list.
pub open spec fn host_sizes(s: Seq<HostValue>) -> nat
    decreases s,
{
    if s.len() == 0 {
        0
    } else {
        host_size(s[0]) + host_sizes(s.drop_first())
    }
}

/// Combined size of an entry list.
pub open spec fn host_pair_sizes(s: Seq<(HostValue, HostValue)>) -> nat
    decreases s,
{
    if s.len() == 0 {
        0
    } else {
        host_size(s[0].0) + host_size(s[0].1) + host_pair_sizes(s.drop_first())
    }
}

/// Each element weighs no more than the list.
proof fn lemma_host_sizes_elem(s: Seq<HostValue>, i: int)
    requires
        0 <= i < s.len(),
    ensures
        host_size(s[i]) <= host_sizes(s),
    decreases s.len(),
{
    if i > 0 {
        lemma_host_sizes_elem(s.drop_first(), i - 1);
    }
}

/// Each entry's sides weigh no more than the list.
proof fn lemma_host_pair_sizes_elem(s: Seq<(HostValue, HostValue)>, i: int)
    requires
        0 <= i < s.len(),
    ensures
        host_size(s[i].0) <= host_pair_sizes(s),
        host_size(s[i].1) <= host_pair_sizes(s),
    decreases s.len(),
{
    if i > 0 {
        lemma_host_pair_sizes_elem(s.drop_first(), i - 1);
    }
}

/// A two-field envelope of a tag and a value document.
fn make_env2(tag: &str, value: JsonValue) -> (r: JsonValue)
    ensures
        r matches JsonValue::Object(f) && f@.len() == 2 && f@[0].0@ == "type"@ && (f@[0].1
            matches JsonValue::String(s) && s@ == tag@) && f@[1].0@ == "value"@ && f@[1].1
            == value,
{
    let mut fields: Vec<(String, JsonValue)> = Vec::new();
    fields.push(("type".to_owned(), JsonValue::String(tag.to_owned())));
    fields.push(("value".to_owned(), value));
    JsonValue::Object(fields)
}

/// Serialise a host value into the typed envelope the parser reads.
pub fn to_json(v: &HostValue) -> (r: JsonValue)
    ensures
        serialized_as(*v, r),
    decreases host_size(*v), 0int,
{
    match v {
        HostValue::Void => make_env2("void", JsonValue::Null),
        HostValue::Bool(b) => make_env2("bool", JsonValue::Bool(*b)),
        HostValue::U32(n) => {
            let d = crate::decimal::i128_to_dec(*n as i128);
            make_env2("u32", JsonValue::Number(crate::strutil::string_of(d.as_slice())))
        },
        HostValue::I32(n) => {
            let d = crate::decimal::i128_to_dec(*n as i128);
            make_env2("i32", JsonValue::Number(crate::strutil::string_of(d.as_slice())))
        },
        HostValue::U64(n) => {
            let d = crate::decimal::i128_to_dec(*n as i128);
            make_env2("u64", JsonValue::Number(crate::strutil::string_of(d.as_slice())))
        },
        HostValue::I64(n) => {
            let d = crate::decimal::i128_to_dec(*n as i128);
            make_env2("i64", JsonValue::Number(crate::strutil::string_of(d.as_slice())))
        },
        HostValue::U128(n) => {
            let d = crate::decimal::u128_to_dec(*n);
            make_env2("u128", JsonValue::String(crate::strutil::string_of(d.as_slice())))
        },
        HostValue::I128(n) => {
            let d = crate::decimal::i128_to_dec(*n);
            make_env2("i128", JsonValue::String(crate::strutil::string_of(d.as_slice())))
        },
        HostValue::U256(s) => make_env2(
            "u256",
            JsonValue::String(crate::kv::clone_string(s)),
        ),
        HostValue::I256(s) => make_env2(
            "i256",
            JsonValue::String(crate::kv::clone_string(s)),
        ),
        HostValue::Symbol(s) => make_env2(
            "symbol",
            JsonValue::String(crate::kv::clone_string(s)),
        ),
        HostValue::Str(s) => make_env2(
            "string",
            JsonValue::String(crate::kv::clone_string(s)),
        ),
        HostValue::Bytes(b) => {
            let mut hx: Vec<char> = Vec::new();
            let mut i: usize = 0;
            while i < b.len()
                invariant
                    i <= b@.len(),
                    hx@ == hex_of(b@.subrange(0, i as int)),
                decreases b@.len() - i,
            {
                let byte = b[i];
                hx.push(crate::json::hex_digit_to_char(byte / 16));
                hx.push(crate::json::hex_digit_to_char(byte % 16));
                proof {
                    let p = b@.subrange(0, i + 1);
                    assert(p.drop_last() =~= b@.subrange(0, i as int));
                    assert(p.last() == b@[i as int]);
                    assert(hx@ =~= hex_of(p));
                }
                i += 1;
            }
            proof {
                assert(b@.subrange(0, b@.len() as int) =~= b@);
            }
            make_env2("bytes", JsonValue::String(crate::strutil::string_of(hx.as_slice())))
        },
        HostValue::Address(s) => make_env2(
            "address",
            JsonValue::String(crate::kv::clone_string(s)),
        ),
        HostValue::List(xs) => {
            let ys = to_json_list(xs);
            make_env2("vec", JsonValue::Array(ys))
        },
        HostValue::Tuple(xs) => {
            let ys = to_json_list(xs);
            let d = crate::decimal::u128_to_dec(xs.len() as u128);
            let mut fields: Vec<(String, JsonValue)> = Vec::new();
            fields.push(
                ("arity".to_owned(), JsonValue::Number(
                    crate::strutil::string_of(d.as_slice()),
                )),
            );
            fields.push(("type".to_owned(), JsonValue::String("tuple".to_owned())));
            fields.push(("value".to_owned(), JsonValue::Array(ys)));
            JsonValue::Object(fields)
        },
        HostValue::MapVal(ps) => {
            let mut ys: Vec<JsonValue> = Vec::new();
            let mut i: usize = 0;
            while i < ps.len()
                invariant
                    *v == HostValue::MapVal(*ps),
                    i <= ps@.len(),
                    ys@.len() == i,
                    serialized_pairs(ps@.subrange(0, i as int), ys@),
                decreases ps@.len() - i,
            {
                proof {
                    lemma_host_pair_sizes_elem(ps@, i as int);
                    assert(*v == HostValue::MapVal(*ps));
                    assert(host_size(*v) == 1 + host_pair_sizes(ps@));
                }
                let kj = to_json(&ps[i].0);
                let vj = to_json(&ps[i].1);
                let mut kv: Vec<JsonValue> = Vec::new();
                kv.push(kj);
                kv.push(vj);
                let ghost pre = ys@;
                ys.push(JsonValue::Array(kv));
                proof {
                    lemma_serialized_pairs_snoc(
                        ps@.subrange(0, i as int),
                        pre,
                        ps@[i as int],
                        ys@.last(),
                    );
                    assert(ps@.subrange(0, i as int).push(ps@[i as int]) =~= ps@.subrange(
                        0,
                        i + 1,
                    ));
                    assert(pre.push(ys@.last()) =~= ys@);
                }
                i += 1;
            }
            proof {
                assert(ps@.subrange(0, ps@.len() as int) =~= ps@);
            }
            make_env2("map", JsonValue::Array(ys))
        },
        HostValue::OptVal(o) => match o {
            None => make_env2("option", JsonValue::Null),
            Some(inner) => {
                let vj = to_json(inner);
                proof {
                    lemma_serialized_not_null(**inner, vj);
                }
                make_env2("option", vj)
            },
        },
    }
}

/// Serialise each element of a value list.
fn to_json_list(xs: &Vec<HostValue>) -> (r: Vec<JsonValue>)
    ensures
        serialized_list(xs@, r@),
    decreases host_sizes(xs@), 1int,
{
    let mut ys: Vec<JsonValue> = Vec::new();
    let mut i: usize = 0;
    while i < xs.len()
        invariant
            i <= xs@.len(),
            ys@.len() == i,
            serialized_list(xs@.subrange(0, i as int), ys@),
        decreases xs@.len() - i,
    {
        proof {
            lemma_host_sizes_elem(xs@, i as int);
        }
        let yj = to_json(&xs[i]);
        let ghost pre = ys@;
        ys.push(yj);
        proof {
            lemma_serialized_list_snoc(xs@.subrange(0, i as int), pre, xs@[i as int], ys@.last());
            assert(xs@.subrange(0, i as int).push(xs@[i as int]) =~= xs@.subrange(0, i + 1));
            assert(pre.push(ys@.last()) =~= ys@);
        }
        i += 1;
    }
    proof {
        assert(xs@.subrange(0, xs@.len() as int) =~= xs@);
    }
    ys
}

/// Appending one related pair keeps two lists related.
proof fn lemma_serialized_list_snoc(
    xs: Seq<HostValue>,
    ys: Seq<JsonValue>,
    x: HostValue,
    y: JsonValue,
)
    requires
        serialized_list(xs, ys),
        serialized_as(x, y),
    ensures
        serialized_list(xs.push(x), ys.push(y)),
    decreases xs.len(),
{
    if xs.len() == 0 {
        assert(xs.push(x)[0] == x && ys.push(y)[0] == y);
        assert(xs.push(x).drop_first() =~= Seq::<HostValue>::empty());
        assert(ys.push(y).drop_first() =~= Seq::<JsonValue>::empty());
        assert(serialized_list(xs.push(x).drop_first(), ys.push(y).drop_first()));
        assert(serialized_as(xs.push(x)[0], ys.push(y)[0]));
    } else {
        lemma_serialized_list_snoc(xs.drop_first(), ys.drop_first(), x, y);
        assert(xs.push(x)[0] == xs[0] && ys.push(y)[0] == ys[0]);
        assert(xs.push(x).drop_first() =~= xs.drop_first().push(x));
        assert(ys.push(y).drop_first() =~= ys.drop_first().push(y));
        assert(serialized_list(xs.push(x).drop_first(), ys.push(y).drop_first()));
        assert(serialized_as(xs.push(x)[0], ys.push(y)[0]));
    }
}

/// Appending one related entry keeps two entry lists related.
proof fn lemma_serialized_pairs_snoc(
    ps: Seq<(HostValue, HostValue)>,
    ys: Seq<JsonValue>,
    p: (HostValue, HostValue),
    y: JsonValue,
)
    requires
        serialized_pairs(ps, ys),
        (match y {
            JsonValue::Array(kv) => kv@.len() == 2 && serialized_as(p.0, kv@[0])
                && serialized_as(p.1, kv@[1]),
            _ => false,
        }),
    ensures
        serialized_pairs(ps.push(p), ys.push(y)),
    decreases ps.len(),
{
    if ps.len() == 0 {
        assert(ps.push(p)[0] == p && ys.push(y)[0] == y);
        assert(ps.push(p).drop_first() =~= Seq::<(HostValue, HostValue)>::empty());
        assert(ys.push(y).drop_first() =~= Seq::<JsonValue>::empty());
        assert(serialized_pairs(ps.push(p).drop_first(), ys.push(y).drop_first()));
    } else {
        lemma_serialized_pairs_snoc(ps.drop_first(), ys.drop_first(), p, y);
        assert(ps.push(p)[0] == ps[0] && ys.push(y)[0] == ys[0]);
        assert(ps.push(p).drop_first() =~= ps.drop_first().push(p));
        assert(ys.push(y).drop_first() =~= ys.drop_first().push(y));
        assert(serialized_pairs(ps.push(p).drop_first(), ys.push(y).drop_first()));
    }
}

/// A serialised envelope is never the null document.
proof fn lemma_serialized_not_null(h: HostValue, j: JsonValue)
    requires
        serialized_as(h, j),
    ensures
        !(j is Null),
{
}

/// A canonical decimal has no zeros to strip.
proof fn lemma_canon_strip_id(s: Seq<char>)
    requires
        canon_dec(s),
    ensures
        strip_zeros(s) == s,
{
}

/// Hex digits written by the encoder read back as themselves.
proof fn lemma_hex_digit_roundtrip(n: nat)
    requires
        n < 16,
    ensures
        is_hex_digit(crate::json::hex_digit_char(n)),
        hex_val(crate::json::hex_digit_char(n)) == n,
{
}

/// Hex encoding and decoding are mutually inverse.
proof fn lemma_hex_roundtrip(bs: Seq<u8>)
    ensures
        hex_wf(hex_of(bs)),
        hex_bytes(hex_of(bs)) == bs,
    decreases bs.len(),
{
    if bs.len() > 0 {
        lemma_hex_roundtrip(bs.drop_last());
        let h = hex_of(bs);
        let hd = hex_of(bs.drop_last());
        let b = bs.last();
        lemma_hex_digit_roundtrip((b / 16) as nat);
        lemma_hex_digit_roundtrip((b % 16) as nat);
        assert(h.len() == hd.len() + 2);
        assert forall|i: int| 0 <= i < h.len() implies is_hex_digit(#[trigger] h[i]) by {
            if i < hd.len() {
                assert(h[i] == hd[i]);
            }
        }
        assert(h.drop_last().drop_last() =~= hd);
        assert(h[h.len() - 2] == crate::json::hex_digit_char((b / 16) as nat));
        assert(h[h.len() - 1] == crate::json::hex_digit_char((b % 16) as nat));
        assert((hex_val(h[h.len() - 2]) * 16 + hex_val(h[h.len() - 1])) as u8 == b);
        assert(hex_bytes(h) =~= bs);
    } else {
        assert(hex_bytes(hex_of(bs)) =~= bs);
    }
}

/// A value list's views split at the front.
proof fn lemma_host_views_cons(s: Seq<HostValue>)
    requires
        s.len() > 0,
    ensures
        host_views(s) == seq![host_view(s[0])] + host_views(s.drop_first()),
    decreases s.len(),
{
    if s.len() == 1 {
        assert(s.drop_last() =~= Seq::<HostValue>::empty());
        assert(s.drop_first() =~= Seq::<HostValue>::empty());
        assert(host_views(s) =~= seq![host_view(s[0])] + host_views(s.drop_first()));
    } else {
        lemma_host_views_cons(s.drop_last());
        assert(s.drop_last()[0] == s[0]);
        assert(s.drop_last().drop_first() =~= s.drop_first().drop_last());
        assert(s.drop_first().last() == s.last());
        assert(host_views(s) == host_views(s.drop_last()).push(host_view(s.last())));
        assert(host_views(s.drop_first()) == host_views(s.drop_first().drop_last()).push(
            host_view(s.last()),
        ));
        assert(host_views(s) =~= seq![host_view(s[0])] + host_views(s.drop_first()));
    }
}

/// An entry list's views split at the front.
proof fn lemma_host_pair_views_cons(s: Seq<(HostValue, HostValue)>)
    requires
        s.len() > 0,
    ensures
        host_pair_views(s) == seq![(host_view(s[0].0), host_view(s[0].1))] + host_pair_views(
            s.drop_first(),
        ),
    decreases s.len(),
{
    if s.len() == 1 {
        assert(s.drop_last() =~= Seq::<(HostValue, HostValue)>::empty());
        assert(s.drop_first() =~= Seq::<(HostValue, HostValue)>::empty());
        assert(host_pair_views(s) =~= seq![(host_view(s[0].0), host_view(s[0].1))]
            + host_pair_views(s.drop_first()));
    } else {
        lemma_host_pair_views_cons(s.drop_last());
        assert(s.drop_last()[0] == s[0]);
        assert(s.drop_last().drop_first() =~= s.drop_first().drop_last());
        assert(s.drop_first().last() == s.last());
        assert(host_pair_views(s) =~= seq![(host_view(s[0].0), host_view(s[0].1))]
            + host_pair_views(s.drop_first()));
    }
}

/// Relatedness holds element by element.
proof fn lemma_serialized_list_index(xs: Seq<HostValue>, ys: Seq<JsonValue>, i: int)
    requires
        serialized_list(xs, ys),
        0 <= i < xs.len(),
    ensures
        serialized_as(xs[i], ys[i]),
    decreases i,
{
    if i > 0 {
        lemma_serialized_list_index(xs.drop_first(), ys.drop_first(), i - 1);
    }
}

/// Relatedness holds entry by entry.
proof fn lemma_serialized_pairs_index(
    ps: Seq<(HostValue, HostValue)>,
    ys: Seq<JsonValue>,
    i: int,
)
    requires
        serialized_pairs(ps, ys),
        0 <= i < ps.len(),
    ensures
        (match ys[i] {
            JsonValue::Array(kv) => kv@.len() == 2 && serialized_as(ps[i].0, kv@[0])
                && serialized_as(ps[i].1, kv@[1]),
            _ => false,
        }),
    decreases i,
{
    if i > 0 {
        lemma_serialized_pairs_index(ps.drop_first(), ys.drop_first(), i - 1);
    }
}

/// Well-formedness holds element by element.
proof fn lemma_host_list_wf_index(xs: Seq<HostValue>, i: int)
    requires
        host_list_wf(xs),
        0 <= i < xs.len(),
    ensures
        host_wf(xs[i]),
    decreases xs.len(),
{
    if i < xs.len() - 1 {
        lemma_host_list_wf_index(xs.drop_last(), i);
        assert(xs.drop_last()[i] == xs[i]);
    }
}

/// Well-formedness holds entry by entry.
proof fn lemma_host_pairs_wf_index(ps: Seq<(HostValue, HostValue)>, i: int)
    requires
        host_pairs_wf(ps),
        0 <= i < ps.len(),
    ensures
        host_wf(ps[i].0),
        host_wf(ps[i].1),
    decreases ps.len(),
{
    if i < ps.len() - 1 {
        lemma_host_pairs_wf_index(ps.drop_last(), i);
        assert(ps.drop_last()[i] == ps[i]);
    }
}

/// Lookups in a two-field envelope.
proof fn lemma_two_field_lookups(f: Seq<(String, JsonValue)>)
    requires
        f.len() == 2,
        f[0].0@ == "type"@,
        f[1].0@ == "value"@,
    ensures
        obj_lookup(f, "type"@) == Some(f[0].1),
        obj_lookup(f, "value"@) == Some(f[1].1),
        obj_lookup(f, "arity"@) is None,
{
    reveal_strlit("type");
    reveal_strlit("value");
    reveal_strlit("arity");
    assert("type"@.len() == 4 && "value"@.len() == 5 && "arity"@.len() == 5);
    assert("type"@ != "value"@);
    assert("type"@ != "arity"@);
    assert("value"@[0] == 'v' && "arity"@[0] == 'a');
    assert("value"@ != "arity"@);
    let d1 = f.drop_first();
    assert(d1[0] == f[1]);
    assert(d1.drop_first() =~= Seq::<(String, JsonValue)>::empty());
    assert(obj_lookup(f, "value"@) == obj_lookup(d1, "value"@));
    assert(obj_lookup(d1, "value"@) == Some(f[1].1));
    assert(obj_lookup(f, "arity"@) == obj_lookup(d1, "arity"@));
    assert(obj_lookup(d1, "arity"@) == obj_lookup(d1.drop_first(), "arity"@));
}

/// Lookups in a three-field tuple envelope.
proof fn lemma_three_field_lookups(f: Seq<(String, JsonValue)>)
    requires
        f.len() == 3,
        f[0].0@ == "arity"@,
        f[1].0@ == "type"@,
        f[2].0@ == "value"@,
    ensures
        obj_lookup(f, "type"@) == Some(f[1].1),
        obj_lookup(f, "value"@) == Some(f[2].1),
        obj_lookup(f, "arity"@) == Some(f[0].1),
{
    reveal_strlit("type");
    reveal_strlit("value");
    reveal_strlit("arity");
    assert("arity"@.len() == 5 && "type"@.len() == 4 && "value"@.len() == 5);
    assert("arity"@ != "type"@);
    assert("arity"@[0] == 'a' && "value"@[0] == 'v');
    assert("arity"@ != "value"@);
    assert("type"@ != "value"@);
    let d1 = f.drop_first();
    let d2 = d1.drop_first();
    assert(d1[0] == f[1]);
    assert(d2[0] == f[2]);
    assert(obj_lookup(f, "type"@) == obj_lookup(d1, "type"@));
    assert(obj_lookup(d1, "type"@) == Some(f[1].1));
    assert(obj_lookup(f, "value"@) == obj_lookup(d1, "value"@));
    assert(obj_lookup(d1, "value"@) == obj_lookup(d2, "value"@));
    assert(obj_lookup(d2, "value"@) == Some(f[2].1));
}

/// Law: re-parsing a serialised host value gives the value back. For every
/// well-formed host value, the envelope the serialiser writes parses to the
/// same value under its recorded type tag, at any path.
pub proof fn lemma_parse_of_serialized(h: HostValue, j: JsonValue, path: Seq<char>)
    requires
        host_wf(h),
        serialized_as(h, j),
    ensures
        parse_spec(j, path) == Ok::<HostValueView, Seq<char>>(host_view(h)),
    decreases host_size(h), 0int,
{
    reveal_strlit("u32");
    reveal_strlit("i32");
    reveal_strlit("u64");
    reveal_strlit("i64");
    reveal_strlit("u128");
    reveal_strlit("i128");
    reveal_strlit("u256");
    reveal_strlit("i256");
    reveal_strlit("bool");
    reveal_strlit("symbol");
    reveal_strlit("string");
    reveal_strlit("bytes");
    reveal_strlit("address");
    reveal_strlit("vec");
    reveal_strlit("map");
    reveal_strlit("option");
    reveal_strlit("tuple");
    reveal_strlit("void");
    lemma_tags_distinct();
    match h {
        HostValue::Void => {
            match j {
                JsonValue::Object(f) => {
                    assert(crate::parser::envelope2(j, "void"@, JsonValue::Null));
                    lemma_env2_dispatch(j, "void"@, path);
                    assert(parse_spec(j, path) == parse_tagged("void"@, f@[1].1, f@, path));
                    assert(f@[1].1 == JsonValue::Null);
                    assert("void"@.len() == 4);
                    assert("u32"@.len() == 3);
                    assert("void"@ != "u32"@);
                    assert(parse_tagged("void"@, JsonValue::Null, f@, path) == Ok::<
                        HostValueView,
                        Seq<char>,
                    >(HostValueView::Void));
                },
                _ => {
                    assert(false);
                },
            }
            assert(parse_spec(j, path) == Ok::<HostValueView, Seq<char>>(host_view(h)));
        },
        HostValue::Bool(_) => {
            lemma_env2_dispatch(j, "bool"@, path);
            assert(parse_spec(j, path) == Ok::<HostValueView, Seq<char>>(host_view(h)));
        },
        HostValue::U32(n) => {
            lemma_env2_dispatch(j, "u32"@, path);
            crate::decimal::lemma_signed_dec_roundtrip(n as int);
            assert(parse_spec(j, path) == Ok::<HostValueView, Seq<char>>(host_view(h)));
        },
        HostValue::I32(n) => {
            lemma_env2_dispatch(j, "i32"@, path);
            crate::decimal::lemma_signed_dec_roundtrip(n as int);
            assert(parse_spec(j, path) == Ok::<HostValueView, Seq<char>>(host_view(h)));
        },
        HostValue::U64(n) => {
            lemma_env2_dispatch(j, "u64"@, path);
            crate::decimal::lemma_signed_dec_roundtrip(n as int);
            assert(parse_spec(j, path) == Ok::<HostValueView, Seq<char>>(host_view(h)));
        },
        HostValue::I64(n) => {
            lemma_env2_dispatch(j, "i64"@, path);
            crate::decimal::lemma_signed_dec_roundtrip(n as int);
            assert(parse_spec(j, path) == Ok::<HostValueView, Seq<char>>(host_view(h)));
        },
        HostValue::U128(n) => {
            lemma_env2_dispatch(j, "u128"@, path);
            crate::decimal::lemma_dec_roundtrip(n as nat);
            crate::decimal::lemma_dec_of_shape(n as nat);
            let t = dec_of(n as nat);
            assert(t[0] != '-' && t[0] != '+');
            assert(is_signed_dec(t));
            assert(signed_dec_value(t) == n as int);
            assert(parse_spec(j, path) == Ok::<HostValueView, Seq<char>>(host_view(h)));
        },
        HostValue::I128(n) => {
            lemma_env2_dispatch(j, "i128"@, path);
            crate::decimal::lemma_signed_dec_roundtrip(n as int);
            assert(parse_spec(j, path) == Ok::<HostValueView, Seq<char>>(host_view(h)));
        },
        HostValue::U256(s) => {
            lemma_env2_dispatch(j, "u256"@, path);
            lemma_canon_strip_id(s@);
            assert(parse_spec(j, path) == Ok::<HostValueView, Seq<char>>(host_view(h)));
        },
        HostValue::I256(s) => {
            lemma_env2_dispatch(j, "i256"@, path);
            if s@.len() > 0 && s@[0] == '-' {
                lemma_canon_strip_id(s@.drop_first());
                assert(s@ =~= seq!['-'] + s@.drop_first());
            } else {
                assert(canon_dec(s@));
                assert(crate::decimal::is_digit(s@[0]));
                assert(s@[0] != '-');
                lemma_canon_strip_id(s@);
            }
            assert(parse_spec(j, path) == Ok::<HostValueView, Seq<char>>(host_view(h)));
        },
        HostValue::Symbol(_) => {
            lemma_env2_dispatch(j, "symbol"@, path);
            assert(parse_spec(j, path) == Ok::<HostValueView, Seq<char>>(host_view(h)));
        },
        HostValue::Str(_) => {
            lemma_env2_dispatch(j, "string"@, path);
            assert(parse_spec(j, path) == Ok::<HostValueView, Seq<char>>(host_view(h)));
        },
        HostValue::Bytes(b) => {
            lemma_env2_dispatch(j, "bytes"@, path);
            lemma_hex_roundtrip(b@);
            assert(parse_spec(j, path) == Ok::<HostValueView, Seq<char>>(host_view(h)));
        },
        HostValue::Address(_) => {
            lemma_env2_dispatch(j, "address"@, path);
            assert(parse_spec(j, path) == Ok::<HostValueView, Seq<char>>(host_view(h)));
        },
        HostValue::List(xs) => {
            lemma_env2_dispatch(j, "vec"@, path);
            proof_measure_container(h);
            match j {
                JsonValue::Object(f) => {
                    match f@[1].1 {
                        JsonValue::Array(ys) => {
                            assert(host_sizes(xs@.skip(0)) < host_size(h)) by {
                                assert(xs@.skip(0) =~= xs@);
                            }
                            lemma_parse_list_of_serialized(xs@, ys@, path, 0);
                            assert(xs@.skip(0) =~= xs@);
                        },
                        _ => {
                        },
                    }
                },
                _ => {
                },
            }
            assert(parse_spec(j, path) == Ok::<HostValueView, Seq<char>>(host_view(h)));
        },
        HostValue::MapVal(ps) => {
            lemma_env2_dispatch(j, "map"@, path);
            proof_measure_container(h);
            match j {
                JsonValue::Object(f) => {
                    match f@[1].1 {
                        JsonValue::Array(ys) => {
                            assert(host_pair_sizes(ps@.skip(0)) < host_size(h)) by {
                                assert(ps@.skip(0) =~= ps@);
                            }
                            lemma_parse_pairs_of_serialized(ps@, ys@, path, 0);
                            assert(ps@.skip(0) =~= ps@);
                        },
                        _ => {
                        },
                    }
                },
                _ => {
                },
            }
            assert(parse_spec(j, path) == Ok::<HostValueView, Seq<char>>(host_view(h)));
        },
        HostValue::OptVal(o) => {
            lemma_env2_dispatch(j, "option"@, path);
            match o {
                None => {
                },
                Some(inner) => {
                    match j {
                        JsonValue::Object(f) => {
                            lemma_parse_of_serialized(*inner, f@[1].1, path + ".value"@);
                        },
                        _ => {
                        },
                    }
                },
            }
            assert(parse_spec(j, path) == Ok::<HostValueView, Seq<char>>(host_view(h)));
        },
        HostValue::Tuple(xs) => {
            match j {
                JsonValue::Object(f) => {
                    lemma_three_field_lookups(f@);
                    crate::decimal::lemma_dec_roundtrip(xs@.len());
                    crate::decimal::lemma_dec_of_shape(xs@.len());
                    let t = dec_of(xs@.len());
                    assert(t[0] != '-' && t[0] != '+');
                    assert(is_signed_dec(t));
                    match f@[2].1 {
                        JsonValue::Array(ys) => {
                            proof_measure_container(h);
                            assert(host_sizes(xs@.skip(0)) < host_size(h)) by {
                                assert(xs@.skip(0) =~= xs@);
                            }
                            lemma_parse_list_of_serialized(xs@, ys@, path, 0);
                            assert(xs@.skip(0) =~= xs@);
                            assert(serialized_list(xs@, ys@));
                            assert(ys@.len() == xs@.len());
                            assert(parse_spec(j, path) == parse_tagged(
                                "tuple"@,
                                f@[2].1,
                                f@,
                                path,
                            ));
                            assert(match f@[0].1 {
                                JsonValue::Number(m) => is_signed_dec(m@)
                                    && signed_dec_value(m@) == ys@.len(),
                                _ => false,
                            });
                            assert(parse_list_spec(ys@, path, 0) == Ok::<
                                Seq<HostValueView>,
                                Seq<char>,
                            >(host_views(xs@)));
                            assert(parse_tagged("tuple"@, f@[2].1, f@, path) == Ok::<
                                HostValueView,
                                Seq<char>,
                            >(HostValueView::Tuple(host_views(xs@))));
                        },
                        _ => {
                        },
                    }
                },
                _ => {
                },
            }
            assert(parse_spec(j, path) == Ok::<HostValueView, Seq<char>>(host_view(h)));
        },
    }
}

/// The parser's type tags are pairwise distinct texts.
proof fn lemma_tags_distinct()
    ensures
        "u32"@.len() == 3,
        "i32"@.len() == 3,
        "u64"@.len() == 3,
        "i64"@.len() == 3,
        "u128"@.len() == 4,
        "i128"@.len() == 4,
        "u256"@.len() == 4,
        "i256"@.len() == 4,
        "bool"@.len() == 4,
        "symbol"@.len() == 6,
        "string"@.len() == 6,
        "bytes"@.len() == 5,
        "address"@.len() == 7,
        "vec"@.len() == 3,
        "map"@.len() == 3,
        "option"@.len() == 6,
        "tuple"@.len() == 5,
        "void"@.len() == 4,
        "u32"@ != "i32"@,
        "u32"@ != "u64"@,
        "u32"@ != "i64"@,
        "u32"@ != "u128"@,
        "u32"@ != "i128"@,
        "u32"@ != "u256"@,
        "u32"@ != "i256"@,
        "u32"@ != "bool"@,
        "u32"@ != "symbol"@,
        "u32"@ != "string"@,
        "u32"@ != "bytes"@,
        "u32"@ != "address"@,
        "u32"@ != "vec"@,
        "u32"@ != "map"@,
        "u32"@ != "option"@,
        "u32"@ != "tuple"@,
        "u32"@ != "void"@,
        "i32"@ != "u64"@,
        "i32"@ != "i64"@,
        "i32"@ != "u128"@,
        "i32"@ != "i128"@,
        "i32"@ != "u256"@,
        "i32"@ != "i256"@,
        "i32"@ != "bool"@,
        "i32"@ != "symbol"@,
        "i32"@ != "string"@,
        "i32"@ != "bytes"@,
        "i32"@ != "address"@,
        "i32"@ != "vec"@,
        "i32"@ != "map"@,
        "i32"@ != "option"@,
        "i32"@ != "tuple"@,
        "i32"@ != "void"@,
        "u64"@ != "i64"@,
        "u64"@ != "u128"@,
        "u64"@ != "i128"@,
        "u64"@ != "u256"@,
        "u64"@ != "i256"@,
        "u64"@ != "bool"@,
        "u64"@ != "symbol"@,
        "u64"@ != "string"@,
        "u64"@ != "bytes"@,
        "u64"@ != "address"@,
        "u64"@ != "vec"@,
        "u64"@ != "map"@,
        "u64"@ != "option"@,
        "u64"@ != "tuple"@,
        "u64"@ != "void"@,
        "i64"@ != "u128"@,
        "i64"@ != "i128"@,
        "i64"@ != "u256"@,
        "i64"@ != "i256"@,
        "i64"@ != "bool"@,
        "i64"@ != "symbol"@,
        "i64"@ != "string"@,
        "i64"@ != "bytes"@,
        "i64"@ != "address"@,
        "i64"@ != "vec"@,
        "i64"@ != "map"@,
        "i64"@ != "option"@,
        "i64"@ != "tuple"@,
        "i64"@ != "void"@,
        "u128"@ != "i128"@,
        "u128"@ != "u256"@,
        "u128"@ != "i256"@,
        "u128"@ != "bool"@,
        "u128"@ != "symbol"@,
        "u128"@ != "string"@,
        "u128"@ != "bytes"@,
        "u128"@ != "address"@,
        "u128"@ != "vec"@,
        "u128"@ != "map"@,
        "u128"@ != "option"@,
        "u128"@ != "tuple"@,
        "u128"@ != "void"@,
        "i128"@ != "u256"@,
        "i128"@ != "i256"@,
        "i128"@ != "bool"@,
        "i128"@ != "symbol"@,
        "i128"@ != "string"@,
        "i128"@ != "bytes"@,
        "i128"@ != "address"@,
        "i128"@ != "vec"@,
        "i128"@ != "map"@,
        "i128"@ != "option"@,
        "i128"@ != "tuple"@,
        "i128"@ != "void"@,
        "u256"@ != "i256"@,
        "u256"@ != "bool"@,
        "u256"@ != "symbol"@,
        "u256"@ != "string"@,
        "u256"@ != "bytes"@,
        "u256"@ != "address"@,
        "u256"@ != "vec"@,
        "u256"@ != "map"@,
        "u256"@ != "option"@,
        "u256"@ != "tuple"@,
        "u256"@ != "void"@,
        "i256"@ != "bool"@,
        "i256"@ != "symbol"@,
        "i256"@ != "string"@,
        "i256"@ != "bytes"@,
        "i256"@ != "address"@,
        "i256"@ != "vec"@,
        "i256"@ != "map"@,
        "i256"@ != "option"@,
        "i256"@ != "tuple"@,
        "i256"@ != "void"@,
        "bool"@ != "symbol"@,
        "bool"@ != "string"@,
        "bool"@ != "bytes"@,
        "bool"@ != "address"@,
        "bool"@ != "vec"@,
        "bool"@ != "map"@,
        "bool"@ != "option"@,
        "bool"@ != "tuple"@,
        "bool"@ != "void"@,
        "symbol"@ != "string"@,
        "symbol"@ != "bytes"@,
        "symbol"@ != "address"@,
        "symbol"@ != "vec"@,
        "symbol"@ != "map"@,
        "symbol"@ != "option"@,
        "symbol"@ != "tuple"@,
        "symbol"@ != "void"@,
        "string"@ != "bytes"@,
        "string"@ != "address"@,
        "string"@ != "vec"@,
        "string"@ != "map"@,
        "string"@ != "option"@,
        "string"@ != "tuple"@,
        "string"@ != "void"@,
        "bytes"@ != "address"@,
        "bytes"@ != "vec"@,
        "bytes"@ != "map"@,
        "bytes"@ != "option"@,
        "bytes"@ != "tuple"@,
        "bytes"@ != "void"@,
        "address"@ != "vec"@,
        "address"@ != "map"@,
        "address"@ != "option"@,
        "address"@ != "tuple"@,
        "address"@ != "void"@,
        "vec"@ != "map"@,
        "vec"@ != "option"@,
        "vec"@ != "tuple"@,
        "vec"@ != "void"@,
        "map"@ != "option"@,
        "map"@ != "tuple"@,
        "map"@ != "void"@,
        "option"@ != "tuple"@,
        "option"@ != "void"@,
        "tuple"@ != "void"@,
{
    reveal_strlit("u32");
    reveal_strlit("i32");
    reveal_strlit("u64");
    reveal_strlit("i64");
    reveal_strlit("u128");
    reveal_strlit("i128");
    reveal_strlit("u256");
    reveal_strlit("i256");
    reveal_strlit("bool");
    reveal_strlit("symbol");
    reveal_strlit("string");
    reveal_strlit("bytes");
    reveal_strlit("address");
    reveal_strlit("vec");
    reveal_strlit("map");
    reveal_strlit("option");
    reveal_strlit("tuple");
    reveal_strlit("void");
    assert("u32"@[0] == 'u' && "i32"@[0] == 'i');
    assert("u32"@[1] == '3' && "u64"@[1] == '6');
    assert("u32"@[0] == 'u' && "i64"@[0] == 'i');
    assert("u32"@[0] == 'u' && "vec"@[0] == 'v');
    assert("u32"@[0] == 'u' && "map"@[0] == 'm');
    assert("i32"@[0] == 'i' && "u64"@[0] == 'u');
    assert("i32"@[1] == '3' && "i64"@[1] == '6');
    assert("i32"@[0] == 'i' && "vec"@[0] == 'v');
    assert("i32"@[0] == 'i' && "map"@[0] == 'm');
    assert("u64"@[0] == 'u' && "i64"@[0] == 'i');
    assert("u64"@[0] == 'u' && "vec"@[0] == 'v');
    assert("u64"@[0] == 'u' && "map"@[0] == 'm');
    assert("i64"@[0] == 'i' && "vec"@[0] == 'v');
    assert("i64"@[0] == 'i' && "map"@[0] == 'm');
    assert("u128"@[0] == 'u' && "i128"@[0] == 'i');
    assert("u128"@[1] == '1' && "u256"@[1] == '2');
    assert("u128"@[0] == 'u' && "i256"@[0] == 'i');
    assert("u128"@[0] == 'u' && "bool"@[0] == 'b');
    assert("u128"@[0] == 'u' && "void"@[0] == 'v');
    assert("i128"@[0] == 'i' && "u256"@[0] == 'u');
    assert("i128"@[1] == '1' && "i256"@[1] == '2');
    assert("i128"@[0] == 'i' && "bool"@[0] == 'b');
    assert("i128"@[0] == 'i' && "void"@[0] == 'v');
    assert("u256"@[0] == 'u' && "i256"@[0] == 'i');
    assert("u256"@[0] == 'u' && "bool"@[0] == 'b');
    assert("u256"@[0] == 'u' && "void"@[0] == 'v');
    assert("i256"@[0] == 'i' && "bool"@[0] == 'b');
    assert("i256"@[0] == 'i' && "void"@[0] == 'v');
    assert("bool"@[0] == 'b' && "void"@[0] == 'v');
    assert("symbol"@[1] == 'y' && "string"@[1] == 't');
    assert("symbol"@[0] == 's' && "option"@[0] == 'o');
    assert("string"@[0] == 's' && "option"@[0] == 'o');
    assert("bytes"@[0] == 'b' && "tuple"@[0] == 't');
    assert("vec"@[0] == 'v' && "map"@[0] == 'm');
}

/// A two-field envelope parses through its tag dispatch.
proof fn lemma_env2_dispatch(j: JsonValue, tag: Seq<char>, path: Seq<char>)
    requires
        (match j {
            JsonValue::Object(f) => f@.len() == 2 && f@[0].0@ == "type"@ && (match f@[0].1 {
                JsonValue::String(s) => s@ == tag,
                _ => false,
            }) && f@[1].0@ == "value"@,
            _ => false,
        }),
    ensures
        (match j {
            JsonValue::Object(f) => parse_spec(j, path) == parse_tagged(
                tag,
                f@[1].1,
                f@,
                path,
            ) && obj_lookup(f@, "value"@) == Some(f@[1].1) && obj_lookup(f@, "arity"@)
                is None,
            _ => false,
        }),
{
    match j {
        JsonValue::Object(f) => {
            lemma_two_field_lookups(f@);
        },
        _ => {
            assert(false);
        },
    }
}

/// Parsing the serialised elements from `i` on gives the elements' views.
proof fn lemma_parse_list_of_serialized(
    xs: Seq<HostValue>,
    ys: Seq<JsonValue>,
    path: Seq<char>,
    i: int,
)
    requires
        host_list_wf(xs),
        serialized_list(xs, ys),
        0 <= i <= xs.len(),
    ensures
        parse_list_spec(ys, path, i) == Ok::<Seq<HostValueView>, Seq<char>>(
            host_views(xs.skip(i)),
        ),
    decreases host_sizes(xs.skip(i)), 1int,
{
    if i == xs.len() {
        assert(xs.skip(i) =~= Seq::<HostValue>::empty());
        assert(ys.len() == xs.len());
    } else {
        lemma_serialized_list_index(xs, ys, i);
        lemma_host_list_wf_index(xs, i);
        proof_measure_list(xs, i);
        lemma_parse_of_serialized(xs[i], ys[i], path_idx(path, i));
        lemma_parse_list_of_serialized(xs, ys, path, i + 1);
        lemma_host_views_cons(xs.skip(i));
        assert(xs.skip(i)[0] == xs[i]);
        assert(xs.skip(i).drop_first() =~= xs.skip(i + 1));
        assert(host_views(xs.skip(i)) == seq![host_view(xs[i])] + host_views(xs.skip(i + 1)));
    }
}

/// A container weighs more than its contents.
proof fn proof_measure_container(h: HostValue)
    ensures
        (match h {
            HostValue::List(xs) => host_size(h) == 1 + host_sizes(xs@),
            HostValue::Tuple(xs) => host_size(h) == 1 + host_sizes(xs@),
            HostValue::MapVal(ps) => host_size(h) == 1 + host_pair_sizes(ps@),
            _ => true,
        }),
{
}

/// Measure facts for the list walk.
proof fn proof_measure_list(xs: Seq<HostValue>, i: int)
    requires
        0 <= i < xs.len(),
    ensures
        host_size(xs[i]) <= host_sizes(xs.skip(i)),
        host_sizes(xs.skip(i + 1)) < host_sizes(xs.skip(i)),
{
    assert(xs.skip(i)[0] == xs[i]);
    assert(xs.skip(i).drop_first() =~= xs.skip(i + 1));
    assert(host_sizes(xs.skip(i)) == host_size(xs[i]) + host_sizes(xs.skip(i + 1)));
    lemma_host_size_pos(xs[i]);
}

/// A host value's size is positive.
proof fn lemma_host_size_pos(v: HostValue)
    ensures
        host_size(v) >= 1,
{
}

/// Parsing the serialised entries from `i` on gives the entries' views.
proof fn lemma_parse_pairs_of_serialized(
    ps: Seq<(HostValue, HostValue)>,
    ys: Seq<JsonValue>,
    path: Seq<char>,
    i: int,
)
    requires
        host_pairs_wf(ps),
        serialized_pairs(ps, ys),
        0 <= i <= ps.len(),
    ensures
        parse_pairs_spec(ys, path, i) == Ok::<Seq<(HostValueView, HostValueView)>, Seq<char>>(
            host_pair_views(ps.skip(i)),
        ),
    decreases host_pair_sizes(ps.skip(i)), 1int,
{
    if i == ps.len() {
        assert(ps.skip(i) =~= Seq::<(HostValue, HostValue)>::empty());
        assert(ys.len() == ps.len());
    } else {
        lemma_serialized_pairs_index(ps, ys, i);
        lemma_host_pairs_wf_index(ps, i);
        assert(ps.skip(i)[0] == ps[i]);
        assert(ps.skip(i).drop_first() =~= ps.skip(i + 1));
        assert(host_pair_sizes(ps.skip(i)) == host_size(ps[i].0) + host_size(ps[i].1)
            + host_pair_sizes(ps.skip(i + 1)));
        lemma_host_size_pos(ps[i].0);
        lemma_host_size_pos(ps[i].1);
        match ys[i] {
            JsonValue::Array(kv) => {
                lemma_parse_of_serialized(ps[i].0, kv@[0], path_idx(path_idx(path, i), 0));
                lemma_parse_of_serialized(ps[i].1, kv@[1], path_idx(path_idx(path, i), 1));
            },
            _ => {
            },
        }
        lemma_parse_pairs_of_serialized(ps, ys, path, i + 1);
        lemma_host_pair_views_cons(ps.skip(i));
        assert(host_pair_views(ps.skip(i)) == seq![(host_view(ps[i].0), host_view(ps[i].1))]
            + host_pair_views(ps.skip(i + 1)));
    }
}

} // verus!
