//! The library's JSON document model.
//!
//! User arguments and mocked responses arrive as JSON text. The text is read
//! by serde_json behind trusted wrappers; everything after that — inspection,
//! rewriting, rendering — is verified code over [`JsonValue`].

use vstd::prelude::*;

use crate::decimal::digit_char;
use crate::strutil::chars_eq;
use crate::strutil::chars_of;
use crate::strutil::string_of;

verus! {

/// A JSON document: numbers are carried in their source text form (the
/// canonical rendering serde_json gives them), objects as field lists in
/// document order with unique keys.
#[derive(Debug, PartialEq, Eq)]
pub enum JsonValue {
    Null,
    Bool(bool),
    Number(String),
    String(String),
    Array(Vec<JsonValue>),
    Object(Vec<(String, JsonValue)>),
}

/// Declares serde_json's document type so the wrappers below may speak of
/// it; the library never looks inside such a value.
#[verifier::external_type_specification]
#[verifier::external_body]
pub struct ExValue(serde_json::Value);

/// The library value a parsed serde_json document stands for.
pub uninterp spec fn value_model_of(v: serde_json::Value) -> JsonValue;

/// What parsing a JSON text yields: `None` on malformed input, otherwise the
/// document's library model. A function of the text alone.
pub uninterp spec fn json_parse_of(s: Seq<char>) -> Option<JsonValue>;

/// Relies on the variant accessors of serde_json::Value: rebuilds the parsed
/// document as the library's value tree, one variant arm each; numbers keep
/// the canonical text serde_json renders for them.
#[verifier::external_body]
fn from_serde(v: serde_json::Value) -> (r: JsonValue)
    ensures
        r == value_model_of(v),
{
    match v {
        serde_json::Value::Null => JsonValue::Null,
        serde_json::Value::Bool(b) => JsonValue::Bool(b),
        serde_json::Value::Number(n) => JsonValue::Number(n.to_string()),
        serde_json::Value::String(s) => JsonValue::String(s),
        serde_json::Value::Array(a) => JsonValue::Array(
            a.into_iter().map(from_serde).collect(),
        ),
        serde_json::Value::Object(o) => JsonValue::Object(
            o.into_iter().map(|(k, x)| (k, from_serde(x))).collect(),
        ),
    }
}

/// Relies on serde_json::from_str: parses a JSON text; the result depends on
/// the text alone.
#[verifier::external_body]
pub fn json_parse(s: &str) -> (r: Option<JsonValue>)
    ensures
        r == json_parse_of(s@),
{
    match serde_json::from_str::<serde_json::Value>(s) {
        Ok(v) => Some(from_serde(v)),
        Err(_) => None,
    }
}

/// Structural size of a document, the termination measure for the executable
/// walks over it.
pub open spec fn json_size(v: JsonValue) -> nat
    decreases v,
{
    match v {
        JsonValue::Null => 1,
        JsonValue::Bool(_) => 1,
        JsonValue::Number(_) => 1,
        JsonValue::String(_) => 1,
        JsonValue::Array(a) => 1 + json_list_size(a@),
        JsonValue::Object(o) => 1 + json_fields_size(o@),
    }
}

/// Combined size of a sequence of documents.
pub open spec fn json_list_size(s: Seq<JsonValue>) -> nat
    decreases s,
{
    if s.len() == 0 {
        0
    } else {
        json_size(s[0]) + json_list_size(s.drop_first())
    }
}

/// Combined size of an object's fields.
pub open spec fn json_fields_size(s: Seq<(String, JsonValue)>) -> nat
    decreases s,
{
    if s.len() == 0 {
        0
    } else {
        json_size(s[0].1) + json_fields_size(s.drop_first())
    }
}

/// Each element weighs no more than the whole list.
pub proof fn lemma_json_list_size_elem(s: Seq<JsonValue>, i: int)
    requires
        0 <= i < s.len(),
    ensures
        json_size(s[i]) <= json_list_size(s),
    decreases s.len(),
{
    if i > 0 {
        lemma_json_list_size_elem(s.drop_first(), i - 1);
    }
}

/// Each field's value weighs no more than the whole field list.
pub proof fn lemma_json_fields_size_elem(s: Seq<(String, JsonValue)>, i: int)
    requires
        0 <= i < s.len(),
    ensures
        json_size(s[i].1) <= json_fields_size(s),
    decreases s.len(),
{
    if i > 0 {
        lemma_json_fields_size_elem(s.drop_first(), i - 1);
    }
}

/// A hexadecimal digit character, lowercase.
pub open spec fn hex_digit_char(n: nat) -> char {
    if n < 10 {
        digit_char(n)
    } else if n == 10 {
        'a'
    } else if n == 11 {
        'b'
    } else if n == 12 {
        'c'
    } else if n == 13 {
        'd'
    } else if n == 14 {
        'e'
    } else {
        'f'
    }
}

/// The rendering of one character inside a JSON string literal: quotes and
/// backslashes are escaped, the control characters with short escapes use
/// them, other control characters the `\u00XX` form.
pub open spec fn esc_char(c: char) -> Seq<char> {
    if c == '"' {
        seq!['\\', '"']
    } else if c == '\\' {
        seq!['\\', '\\']
    } else if c == '\n' {
        seq!['\\', 'n']
    } else if c == '\r' {
        seq!['\\', 'r']
    } else if c == '\t' {
        seq!['\\', 't']
    } else if c == '\u{8}' {
        seq!['\\', 'b']
    } else if c == '\u{c}' {
        seq!['\\', 'f']
    } else if (c as int) < 32 {
        seq!['\\', 'u', '0', '0', hex_digit_char(((c as int) / 16) as nat), hex_digit_char(
            ((c as int) % 16) as nat,
        )]
    } else {
        seq![c]
    }
}

/// The body of a JSON string literal for `s`.
pub open spec fn esc_string(s: Seq<char>) -> Seq<char>
    decreases s.len(),
{
    if s.len() == 0 {
        Seq::empty()
    } else {
        esc_string(s.drop_last()) + esc_char(s.last())
    }
}

/// The JSON text of a document: `null`, `true`/`false`, the number's own
/// text, quoted and escaped strings, and bracketed comma-separated children.
pub open spec fn render_spec(v: JsonValue) -> Seq<char>
    decreases v,
{
    match v {
        JsonValue::Null => seq!['n', 'u', 'l', 'l'],
        JsonValue::Bool(b) => if b {
            seq!['t', 'r', 'u', 'e']
        } else {
            seq!['f', 'a', 'l', 's', 'e']
        },
        JsonValue::Number(n) => n@,
        JsonValue::String(s) => seq!['"'] + esc_string(s@) + seq!['"'],
        JsonValue::Array(a) => seq!['['] + render_items(a@) + seq![']'],
        JsonValue::Object(o) => seq!['{'] + render_fields(o@) + seq!['}'],
    }
}

/// The comma-separated renderings of a sequence of documents.
pub open spec fn render_items(s: Seq<JsonValue>) -> Seq<char>
    decreases s,
{
    if s.len() == 0 {
        Seq::empty()
    } else if s.len() == 1 {
        render_spec(s[0])
    } else {
        render_items(s.drop_last()) + seq![','] + render_spec(s.last())
    }
}

/// The comma-separated renderings of an object's fields.
pub open spec fn render_fields(s: Seq<(String, JsonValue)>) -> Seq<char>
    decreases s,
{
    if s.len() == 0 {
        Seq::empty()
    } else if s.len() == 1 {
        seq!['"'] + esc_string(s[0].0@) + seq!['"', ':'] + render_spec(s[0].1)
    } else {
        render_fields(s.drop_last()) + seq![','] + seq!['"'] + esc_string(s.last().0@) + seq![
            '"',
            ':',
        ] + render_spec(s.last().1)
    }
}

/// Append all characters of `src` to `dst`.
pub fn append_chars(dst: &mut Vec<char>, src: &[char])
    ensures
        final(dst)@ == old(dst)@ + src@,
{
    let mut i: usize = 0;
    while i < src.len()
        invariant
            i <= src@.len(),
            dst@ == old(dst)@ + src@.subrange(0, i as int),
        decreases src@.len() - i,
    {
        dst.push(src[i]);
        proof {
            assert(old(dst)@ + src@.subrange(0, i + 1) =~= (old(dst)@ + src@.subrange(
                0,
                i as int,
            )).push(src@[i as int]));
        }
        i += 1;
    }
    proof {
        assert(src@.subrange(0, src@.len() as int) =~= src@);
    }
}

/// The lowercase hexadecimal digit character of a value below sixteen.
pub fn hex_digit_to_char(d: u8) -> (c: char)
    requires
        d < 16,
    ensures
        c == hex_digit_char(d as nat),
{
    if d < 10 {
        crate::decimal::digit_to_char(d)
    } else if d == 10 {
        'a'
    } else if d == 11 {
        'b'
    } else if d == 12 {
        'c'
    } else if d == 13 {
        'd'
    } else if d == 14 {
        'e'
    } else {
        'f'
    }
}

/// Append the in-string rendering of one character.
fn push_escaped(dst: &mut Vec<char>, c: char)
    ensures
        final(dst)@ == old(dst)@ + esc_char(c),
{
    if c == '"' {
        dst.push('\\');
        dst.push('"');
        proof {
            assert(dst@ =~= old(dst)@ + esc_char(c));
        }
    } else if c == '\\' {
        dst.push('\\');
        dst.push('\\');
        proof {
            assert(dst@ =~= old(dst)@ + esc_char(c));
        }
    } else if c == '\n' {
        dst.push('\\');
        dst.push('n');
        proof {
            assert(dst@ =~= old(dst)@ + esc_char(c));
        }
    } else if c == '\r' {
        dst.push('\\');
        dst.push('r');
        proof {
            assert(dst@ =~= old(dst)@ + esc_char(c));
        }
    } else if c == '\t' {
        dst.push('\\');
        dst.push('t');
        proof {
            assert(dst@ =~= old(dst)@ + esc_char(c));
        }
    } else if c == '\u{8}' {
        dst.push('\\');
        dst.push('b');
        proof {
            assert(dst@ =~= old(dst)@ + esc_char(c));
        }
    } else if c == '\u{c}' {
        dst.push('\\');
        dst.push('f');
        proof {
            assert(dst@ =~= old(dst)@ + esc_char(c));
        }
    } else if (c as u32) < 32 {
        let n = c as u32;
        dst.push('\\');
        dst.push('u');
        dst.push('0');
        dst.push('0');
        dst.push(hex_digit_to_char((n / 16) as u8));
        dst.push(hex_digit_to_char((n % 16) as u8));
        proof {
            assert(dst@ =~= old(dst)@ + esc_char(c));
        }
    } else {
        dst.push(c);
        proof {
            assert(dst@ =~= old(dst)@ + esc_char(c));
        }
    }
}

/// Append the quoted, escaped string literal for `s`.
fn push_string_literal(dst: &mut Vec<char>, s: &str)
    ensures
        final(dst)@ == old(dst)@ + seq!['"'] + esc_string(s@) + seq!['"'],
{
    let cs = chars_of(s);
    dst.push('"');
    let mut i: usize = 0;
    proof {
        assert(esc_string(s@.subrange(0, 0)) =~= Seq::<char>::empty());
        assert(dst@ =~= old(dst)@ + seq!['"'] + esc_string(s@.subrange(0, 0)));
    }
    while i < cs.len()
        invariant
            i <= cs@.len(),
            cs@ == s@,
            dst@ == old(dst)@ + seq!['"'] + esc_string(s@.subrange(0, i as int)),
        decreases cs@.len() - i,
    {
        push_escaped(dst, cs[i]);
        proof {
            let p = s@.subrange(0, i + 1);
            assert(p.drop_last() =~= s@.subrange(0, i as int));
            assert(esc_string(p) == esc_string(p.drop_last()) + esc_char(s@[i as int]));
        }
        i += 1;
    }
    dst.push('"');
    proof {
        assert(s@.subrange(0, s@.len() as int) =~= s@);
        assert(dst@ =~= old(dst)@ + seq!['"'] + esc_string(s@) + seq!['"']);
    }
}

/// The JSON text of a document, as characters.
pub fn render_json(v: &JsonValue) -> (r: Vec<char>)
    ensures
        r@ == render_spec(*v),
    decreases json_size(*v),
{
    let mut out: Vec<char> = Vec::new();
    match v {
        JsonValue::Null => {
            out.push('n');
            out.push('u');
            out.push('l');
            out.push('l');
            proof {
                assert(out@ =~= render_spec(*v));
            }
        },
        JsonValue::Bool(b) => {
            if *b {
                out.push('t');
                out.push('r');
                out.push('u');
                out.push('e');
            } else {
                out.push('f');
                out.push('a');
                out.push('l');
                out.push('s');
                out.push('e');
            }
            proof {
                assert(out@ =~= render_spec(*v));
            }
        },
        JsonValue::Number(n) => {
            let cs = chars_of(n.as_str());
            append_chars(&mut out, cs.as_slice());
            proof {
                assert(out@ =~= render_spec(*v));
            }
        },
        JsonValue::String(s) => {
            push_string_literal(&mut out, s.as_str());
            proof {
                assert(out@ =~= render_spec(*v));
            }
        },
        JsonValue::Array(a) => {
            out.push('[');
            let mut i: usize = 0;
            proof {
                assert(out@ =~= seq!['['] + render_items(a@.subrange(0, 0)));
            }
            while i < a.len()
                invariant
                    i <= a@.len(),
                    *v == JsonValue::Array(*a),
                    out@ == seq!['['] + render_items(a@.subrange(0, i as int)),
                decreases a@.len() - i,
            {
                if i > 0 {
                    out.push(',');
                }
                proof {
                    lemma_json_list_size_elem(a@, i as int);
                }
                let item = render_json(&a[i]);
                append_chars(&mut out, item.as_slice());
                proof {
                    let p = a@.subrange(0, i + 1);
                    assert(p.drop_last() =~= a@.subrange(0, i as int));
                    assert(p.last() == a@[i as int]);
                    if i == 0 {
                        assert(p.len() == 1);
                        assert(p[0] == a@[0]);
                        assert(out@ =~= seq!['['] + render_items(p));
                    } else {
                        assert(render_items(p) == render_items(a@.subrange(0, i as int)) + seq![
                            ',',
                        ] + render_spec(a@[i as int]));
                        assert(out@ =~= seq!['['] + render_items(p));
                    }
                }
                i += 1;
            }
            out.push(']');
            proof {
                assert(a@.subrange(0, a@.len() as int) =~= a@);
                assert(out@ =~= render_spec(*v));
            }
        },
        JsonValue::Object(o) => {
            out.push('{');
            let mut i: usize = 0;
            proof {
                assert(out@ =~= seq!['{'] + render_fields(o@.subrange(0, 0)));
            }
            while i < o.len()
                invariant
                    i <= o@.len(),
                    *v == JsonValue::Object(*o),
                    out@ == seq!['{'] + render_fields(o@.subrange(0, i as int)),
                decreases o@.len() - i,
            {
                if i > 0 {
                    out.push(',');
                }
                push_string_literal(&mut out, o[i].0.as_str());
                out.push(':');
                proof {
                    lemma_json_fields_size_elem(o@, i as int);
                }
                let item = render_json(&o[i].1);
                append_chars(&mut out, item.as_slice());
                proof {
                    let p = o@.subrange(0, i + 1);
                    assert(p.drop_last() =~= o@.subrange(0, i as int));
                    assert(p.last() == o@[i as int]);
                    if i == 0 {
                        assert(p.len() == 1);
                        assert(p[0] == o@[0]);
                        assert(out@ =~= seq!['{'] + render_fields(p));
                    } else {
                        assert(render_fields(p) == render_fields(o@.subrange(0, i as int)) + seq![
                            ',',
                        ] + seq!['"'] + esc_string(o@[i as int].0@) + seq!['"', ':'] + render_spec(
                            o@[i as int].1,
                        ));
                        assert(out@ =~= seq!['{'] + render_fields(p));
                    }
                }
                i += 1;
            }
            out.push('}');
            proof {
                assert(o@.subrange(0, o@.len() as int) =~= o@);
                assert(out@ =~= render_spec(*v));
            }
        },
    }
    out
}

/// The JSON text of a document.
pub fn json_to_string(v: &JsonValue) -> (r: String)
    ensures
        r@ == render_spec(*v),
{
    let cs = render_json(v);
    string_of(cs.as_slice())
}

/// The value of the first field named `key`, if any.
pub open spec fn obj_lookup(fields: Seq<(String, JsonValue)>, key: Seq<char>) -> Option<
    JsonValue,
>
    decreases fields.len(),
{
    if fields.len() == 0 {
        None
    } else if fields[0].0@ == key {
        Some(fields[0].1)
    } else {
        obj_lookup(fields.drop_first(), key)
    }
}

/// Look a field up by key.
pub fn obj_get<'a>(fields: &'a Vec<(String, JsonValue)>, key: &[char]) -> (r: Option<
    &'a JsonValue,
>)
    ensures
        match r {
            Some(v) => obj_lookup(fields@, key@) == Some(*v),
            None => obj_lookup(fields@, key@) is None,
        },
{
    let mut i: usize = 0;
    proof {
        assert(fields@.skip(0) =~= fields@);
    }
    while i < fields.len()
        invariant
            i <= fields@.len(),
            obj_lookup(fields@, key@) == obj_lookup(fields@.skip(i as int), key@),
        decreases fields@.len() - i,
    {
        proof {
            assert(fields@.skip(i as int)[0] == fields@[i as int]);
            assert(fields@.skip(i as int).drop_first() =~= fields@.skip(i + 1));
        }
        let kc = chars_of(fields[i].0.as_str());
        if chars_eq(kc.as_slice(), key) {
            return Some(&fields[i].1);
        }
        i += 1;
    }
    None
}

/// A document as condition-comparison text: strings stand bare, numbers use
/// their own text, booleans are lowercase. Anything else compares by its
/// canonical JSON text (`null`, `[1,2]`); this is the library's chosen
/// debug form for non-primitive argument values, fixed here rather than an
/// implementation-defined formatter shape.
pub open spec fn arg_text_of(v: JsonValue) -> Seq<char> {
    match v {
        JsonValue::String(s) => s@,
        JsonValue::Number(n) => n@,
        JsonValue::Bool(b) => if b {
            seq!['t', 'r', 'u', 'e']
        } else {
            seq!['f', 'a', 'l', 's', 'e']
        },
        _ => render_spec(v),
    }
}

/// The condition-comparison text of a document.
pub fn arg_text(v: &JsonValue) -> (r: Vec<char>)
    ensures
        r@ == arg_text_of(*v),
{
    match v {
        JsonValue::String(s) => chars_of(s.as_str()),
        JsonValue::Number(n) => chars_of(n.as_str()),
        JsonValue::Bool(b) => {
            let mut cs: Vec<char> = Vec::new();
            if *b {
                cs.push('t');
                cs.push('r');
                cs.push('u');
                cs.push('e');
            } else {
                cs.push('f');
                cs.push('a');
                cs.push('l');
                cs.push('s');
                cs.push('e');
            }
            proof {
                assert(cs@ =~= arg_text_of(*v));
            }
            cs
        },
        _ => render_json(v),
    }
}

/// A looked-up field's value weighs no more than the whole field list.
pub proof fn lemma_obj_lookup_size(fields: Seq<(String, JsonValue)>, k: Seq<char>)
    ensures
        match obj_lookup(fields, k) {
            Some(v) => json_size(v) <= json_fields_size(fields),
            None => true,
        },
    decreases fields.len(),
{
    if fields.len() > 0 && fields[0].0@ != k {
        lemma_obj_lookup_size(fields.drop_first(), k);
    }
}

/// A document's size is positive.
pub proof fn lemma_json_size_pos(v: JsonValue)
    ensures
        json_size(v) >= 1,
{
}

/// The document is a typed envelope: an object carrying both a `type` and a
/// `value` field.
pub open spec fn is_typed_annotation_spec(v: JsonValue) -> bool {
    match v {
        JsonValue::Object(o) => obj_lookup(o@, "type"@) is Some && obj_lookup(o@, "value"@)
            is Some,
        _ => false,
    }
}

/// The document is a `{"type": …, "value": …}` envelope.
pub fn is_typed_annotation(v: &JsonValue) -> (r: bool)
    ensures
        r == is_typed_annotation_spec(*v),
{
    match v {
        JsonValue::Object(o) => {
            let t = chars_of("type");
            let w = chars_of("value");
            let has_t = obj_get(o, t.as_slice());
            let has_w = obj_get(o, w.as_slice());
            has_t.is_some() && has_w.is_some()
        },
        _ => false,
    }
}

} // verus!
