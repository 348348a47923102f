//! Argument normalisation against the contract's surface-typed parameter
//! list: `Option<…>` arguments are wrapped in a typed envelope, `Tuple<…>`
//! arguments checked for arity and wrapped, and everything else passed
//! through untouched.

use vstd::prelude::*;

use crate::decimal::dec_of;
use crate::json::is_typed_annotation_spec;
use crate::json::obj_lookup;
use crate::json::JsonValue;
use crate::strutil::starts_with_spec;
use crate::strutil::trim_spec;

verus! {

/// A named parameter with its surface type name, as the contract spec
/// section declares it.
#[derive(Debug, PartialEq, Eq)]
pub struct SpecParam {
    pub name: String,
    pub ty_name: String,
}

/// The mathematical form of a surface parameter.
pub struct SpecParamView {
    pub name: Seq<char>,
    pub ty_name: Seq<char>,
}

impl View for SpecParam {
    type V = SpecParamView;

    open spec fn view(&self) -> SpecParamView {
        SpecParamView { name: self.name@, ty_name: self.ty_name@ }
    }
}

/// A function of the contract spec section: its name and surface-typed
/// parameters.
#[derive(Debug, PartialEq, Eq)]
pub struct SpecFunction {
    pub name: String,
    pub params: Vec<SpecParam>,
}

/// The mathematical form of a spec-section function.
pub struct SpecFunctionView {
    pub name: Seq<char>,
    pub params: Seq<SpecParamView>,
}

impl View for SpecFunction {
    type V = SpecFunctionView;

    open spec fn view(&self) -> SpecFunctionView {
        SpecFunctionView { name: self.name@, params: self.params@.map_values(|p: SpecParam| p@) }
    }
}

/// The number of commas at angle-bracket depth zero, scanning from depth
/// `depth`; a stray closing bracket leaves the depth at zero.
pub open spec fn top_commas(s: Seq<char>, depth: int) -> int
    decreases s.len(),
{
    if s.len() == 0 {
        0
    } else {
        let c = s[0];
        if c == '<' {
            top_commas(s.drop_first(), depth + 1)
        } else if c == '>' {
            top_commas(s.drop_first(), if depth > 0 { depth - 1 } else { 0 })
        } else if c == ',' && depth == 0 {
            1 + top_commas(s.drop_first(), depth)
        } else {
            top_commas(s.drop_first(), depth)
        }
    }
}

/// The depth left after scanning `s` from depth `depth`.
pub open spec fn net_depth(s: Seq<char>, depth: int) -> int
    decreases s.len(),
{
    if s.len() == 0 {
        depth
    } else {
        let c = s[0];
        if c == '<' {
            net_depth(s.drop_first(), depth + 1)
        } else if c == '>' {
            net_depth(s.drop_first(), if depth > 0 { depth - 1 } else { 0 })
        } else {
            net_depth(s.drop_first(), depth)
        }
    }
}

/// The tuple arity a surface type name declares: the text between `Tuple<`
/// and the final `>` holds one type per top-level comma gap, or none at all
/// when blank.
pub open spec fn tuple_arity_spec(t: Seq<char>) -> Option<int> {
    if !starts_with_spec(t, seq!['T', 'u', 'p', 'l', 'e', '<']) || t.len() < 7 || t.last() != '>' {
        None
    } else {
        let inner = t.subrange(6, t.len() - 1);
        if trim_spec(inner).len() == 0 {
            Some(0)
        } else {
            Some(1 + top_commas(inner, 0))
        }
    }
}

/// Counted commas never exceed the characters scanned.
proof fn lemma_top_commas_le(s: Seq<char>, depth: int)
    ensures
        0 <= top_commas(s, depth) <= s.len(),
    decreases s.len(),
{
    if s.len() > 0 {
        let c = s[0];
        if c == '<' {
            lemma_top_commas_le(s.drop_first(), depth + 1);
        } else if c == '>' {
            lemma_top_commas_le(s.drop_first(), if depth > 0 { depth - 1 } else { 0 });
        } else {
            lemma_top_commas_le(s.drop_first(), depth);
        }
    }
}

/// The tuple arity a surface type name declares, as the normaliser reads it.
pub fn tuple_arity_from_type_name(t: &str) -> (r: Option<usize>)
    ensures
        match r {
            Some(n) => tuple_arity_spec(t@) == Some(n as int),
            None => tuple_arity_spec(t@) is None,
        },
{
    let cs = crate::strutil::chars_of(t);
    let mut prefix: Vec<char> = Vec::new();
    prefix.push('T');
    prefix.push('u');
    prefix.push('p');
    prefix.push('l');
    prefix.push('e');
    prefix.push('<');
    proof {
        assert(prefix@ =~= seq!['T', 'u', 'p', 'l', 'e', '<']);
    }
    if !crate::strutil::starts_with(cs.as_slice(), prefix.as_slice()) {
        return None;
    }
    if cs.len() < 7 {
        return None;
    }
    if cs[cs.len() - 1] != '>' {
        return None;
    }
    let inner = vstd::slice::slice_subrange(cs.as_slice(), 6, cs.len() - 1);
    proof {
        assert(inner@ =~= t@.subrange(6, t@.len() - 1));
    }
    let trimmed = crate::strutil::trim(inner);
    if trimmed.len() == 0 {
        return Some(0);
    }
    let mut depth: usize = 0;
    let mut count: usize = 0;
    let mut i: usize = 0;
    proof {
        assert(inner@.skip(0) =~= inner@);
        lemma_top_commas_le(inner@, 0);
    }
    while i < inner.len()
        invariant
            i <= inner@.len(),
            count <= i,
            depth <= i,
            top_commas(inner@, 0) == count + top_commas(
                inner@.skip(i as int),
                depth as int,
            ),
        decreases inner@.len() - i,
    {
        proof {
            assert(inner@.skip(i as int)[0] == inner@[i as int]);
            assert(inner@.skip(i as int).drop_first() =~= inner@.skip(i + 1));
            lemma_top_commas_le(inner@.skip(i + 1), depth as int);
        }
        let c = inner[i];
        if c == '<' {
            depth += 1;
        } else if c == '>' {
            if depth > 0 {
                depth -= 1;
            }
        } else if c == ',' && depth == 0 {
            count += 1;
        }
        i += 1;
    }
    proof {
        assert(inner@.skip(inner@.len() as int) =~= Seq::<char>::empty());
    }
    Some(1 + count)
}

/// Comma counting and depth tracking distribute over concatenation.
proof fn lemma_scan_concat(a: Seq<char>, b: Seq<char>, d: int)
    ensures
        top_commas(a + b, d) == top_commas(a, d) + top_commas(b, net_depth(a, d)),
        net_depth(a + b, d) == net_depth(b, net_depth(a, d)),
    decreases a.len(),
{
    if a.len() == 0 {
        assert(a + b =~= b);
    } else {
        assert((a + b)[0] == a[0]);
        assert((a + b).drop_first() =~= a.drop_first() + b);
        let c = a[0];
        if c == '<' {
            lemma_scan_concat(a.drop_first(), b, d + 1);
        } else if c == '>' {
            lemma_scan_concat(a.drop_first(), b, if d > 0 { d - 1 } else { 0 });
        } else {
            lemma_scan_concat(a.drop_first(), b, d);
        }
    }
}

/// The comma-joined list of type names.
pub open spec fn join_types(ts: Seq<Seq<char>>) -> Seq<char>
    decreases ts.len(),
{
    if ts.len() == 0 {
        Seq::empty()
    } else if ts.len() == 1 {
        ts[0]
    } else {
        join_types(ts.drop_last()) + seq![','] + ts.last()
    }
}

/// A well-formed surface type name: its angle brackets balance out, no comma
/// stands outside them, and it is not blank.
pub open spec fn type_name_wf(t: Seq<char>) -> bool {
    net_depth(t, 0) == 0 && top_commas(t, 0) == 0 && trim_spec(t).len() > 0
}

/// A non-blank start keeps the trimmed text non-blank.
proof fn lemma_trim_keeps_nonspace(s: Seq<char>, i: int)
    requires
        0 <= i < s.len(),
        !crate::strutil::is_space(s[i]),
    ensures
        trim_spec(s).len() > 0,
    decreases s.len(),
{
    if crate::strutil::is_space(s[0]) {
        assert(i > 0);
        assert(s.drop_first()[i - 1] == s[i]);
        lemma_trim_keeps_nonspace(s.drop_first(), i - 1);
    } else {
        lemma_trim_end_keeps(s, 0);
    }
}

/// Trimming the end keeps a non-space character.
proof fn lemma_trim_end_keeps(s: Seq<char>, i: int)
    requires
        0 <= i < s.len(),
        !crate::strutil::is_space(s[i]),
    ensures
        crate::strutil::trim_end_spec(s).len() > 0,
    decreases s.len(),
{
    if crate::strutil::is_space(s.last()) {
        assert(i < s.len() - 1);
        assert(s.drop_last()[i] == s[i]);
        lemma_trim_end_keeps(s.drop_last(), i);
    }
}

/// A trimmed-non-blank text has a non-space character.
proof fn lemma_nonblank_has_nonspace(s: Seq<char>)
    requires
        trim_spec(s).len() > 0,
    ensures
        exists|i: int| 0 <= i < s.len() && !crate::strutil::is_space(#[trigger] s[i]),
    decreases s.len(),
{
    if s.len() > 0 {
        if crate::strutil::is_space(s[0]) {
            lemma_nonblank_has_nonspace(s.drop_first());
            let i = choose|i: int|
                0 <= i < s.drop_first().len() && !crate::strutil::is_space(
                    #[trigger] s.drop_first()[i],
                );
            assert(s[i + 1] == s.drop_first()[i]);
        } else {
            assert(!crate::strutil::is_space(s[0]));
        }
    }
}

/// Joining well-formed type names leaves one top-level comma between each
/// pair and balanced brackets.
proof fn lemma_join_counts(ts: Seq<Seq<char>>)
    requires
        ts.len() >= 1,
        forall|i: int| 0 <= i < ts.len() ==> type_name_wf(#[trigger] ts[i]),
    ensures
        top_commas(join_types(ts), 0) == ts.len() - 1,
        net_depth(join_types(ts), 0) == 0,
    decreases ts.len(),
{
    if ts.len() == 1 {
    } else {
        assert(forall|i: int|
            0 <= i < ts.drop_last().len() ==> type_name_wf(#[trigger] ts.drop_last()[i]));
        lemma_join_counts(ts.drop_last());
        let a = join_types(ts.drop_last());
        let tail = seq![','] + ts.last();
        lemma_scan_concat(a + seq![','], ts.last(), 0);
        lemma_scan_concat(a, seq![','], 0);
        assert(join_types(ts) =~= (a + seq![',']) + ts.last());
        let comma = seq![','];
        assert(comma.drop_first() =~= Seq::<char>::empty());
        assert(comma[0] == ',');
        assert(net_depth(comma.drop_first(), net_depth(a, 0)) == net_depth(a, 0));
        assert(net_depth(comma, net_depth(a, 0)) == net_depth(a, 0));
        assert(top_commas(comma.drop_first(), 0) == 0);
        assert(top_commas(comma, 0) == 1);
    }
}

/// The first type keeps a non-space character somewhere in the join.
proof fn lemma_join_nonblank(ts: Seq<Seq<char>>)
    requires
        ts.len() >= 1,
        trim_spec(ts[0]).len() > 0,
    ensures
        trim_spec(join_types(ts)).len() > 0,
    decreases ts.len(),
{
    if ts.len() == 1 {
    } else {
        assert(ts.drop_last()[0] == ts[0]);
        lemma_join_nonblank(ts.drop_last());
        lemma_nonblank_has_nonspace(join_types(ts.drop_last()));
        let i = choose|i: int|
            0 <= i < join_types(ts.drop_last()).len() && !crate::strutil::is_space(
                #[trigger] join_types(ts.drop_last())[i],
            );
        assert(join_types(ts)[i] == join_types(ts.drop_last())[i]);
        lemma_trim_keeps_nonspace(join_types(ts), i);
    }
}

/// Law: the arity of a tuple type built from a list of well-formed type
/// names is the length of the list, nesting included.
pub proof fn lemma_tuple_arity_of_join(ts: Seq<Seq<char>>)
    requires
        forall|i: int| 0 <= i < ts.len() ==> type_name_wf(#[trigger] ts[i]),
    ensures
        tuple_arity_spec(seq!['T', 'u', 'p', 'l', 'e', '<'] + join_types(ts) + seq!['>'])
            == Some(ts.len() as int),
{
    let t = seq!['T', 'u', 'p', 'l', 'e', '<'] + join_types(ts) + seq!['>'];
    assert(t.subrange(0, 6) =~= seq!['T', 'u', 'p', 'l', 'e', '<']);
    assert(t.last() == '>');
    let inner = t.subrange(6, t.len() - 1);
    assert(inner =~= join_types(ts));
    if ts.len() == 0 {
        assert(inner =~= Seq::<char>::empty());
        assert(trim_spec(inner).len() == 0);
    } else {
        lemma_join_counts(ts);
        lemma_join_nonblank(ts);
    }
}

/// The surface type is an `Option<…>`.
pub open spec fn opt_prefix() -> Seq<char> {
    seq!['O', 'p', 't', 'i', 'o', 'n', '<']
}

/// The surface type is a `Tuple<…>`.
pub open spec fn tup_prefix() -> Seq<char> {
    seq!['T', 'u', 'p', 'l', 'e', '<']
}

/// `r` is the two-field envelope `{"type": tag, "value": inner}`.
pub open spec fn envelope2(r: JsonValue, tag: Seq<char>, inner: JsonValue) -> bool {
    match r {
        JsonValue::Object(f) => f@.len() == 2 && f@[0].0@ == "type"@ && (match f@[0].1 {
            JsonValue::String(s) => s@ == tag,
            _ => false,
        }) && f@[1].0@ == "value"@ && f@[1].1 == inner,
        _ => false,
    }
}

/// `r` is the three-field envelope
/// `{"arity": n, "type": tag, "value": inner}`, keys in sorted order.
pub open spec fn envelope3(r: JsonValue, tag: Seq<char>, arity: int, inner: JsonValue) -> bool {
    match r {
        JsonValue::Object(f) => f@.len() == 3 && f@[0].0@ == "arity"@ && (match f@[0].1 {
            JsonValue::Number(n) => arity >= 0 && n@ == dec_of(arity as nat),
            _ => false,
        }) && f@[1].0@ == "type"@ && (match f@[1].1 {
            JsonValue::String(s) => s@ == tag,
            _ => false,
        }) && f@[2].0@ == "value"@ && f@[2].1 == inner,
        _ => false,
    }
}

/// The kind word of a document, as error messages name it.
pub open spec fn json_kind_text(v: JsonValue) -> Seq<char> {
    match v {
        JsonValue::Null => "null"@,
        JsonValue::Bool(_) => "boolean"@,
        JsonValue::Number(_) => "number"@,
        JsonValue::String(_) => "string"@,
        JsonValue::Array(_) => "array"@,
        JsonValue::Object(_) => "object"@,
    }
}

/// What normalising one argument against one parameter gives: `Option`
/// arguments gain the option envelope unless already annotated, `Tuple`
/// arguments of the right arity gain the tuple envelope, anything else
/// passes through.
pub open spec fn normalize_value_ok(p: SpecParamView, a: JsonValue, r: JsonValue) -> bool {
    if starts_with_spec(p.ty_name, opt_prefix()) {
        if is_typed_annotation_spec(a) {
            r == a
        } else {
            envelope2(r, "option"@, a)
        }
    } else if starts_with_spec(p.ty_name, tup_prefix()) {
        match tuple_arity_spec(p.ty_name) {
            None => false,
            Some(n) => match a {
                JsonValue::Array(xs) => xs@.len() == n && envelope3(r, "tuple"@, n, a),
                _ => false,
            },
        }
    } else {
        r == a
    }
}

/// The error normalising one argument raises, if any: a malformed tuple type
/// in the spec, a non-array argument for a tuple, or an arity mismatch.
pub open spec fn normalize_value_err(p: SpecParamView, a: JsonValue) -> Option<Seq<char>> {
    if starts_with_spec(p.ty_name, opt_prefix()) {
        None
    } else if starts_with_spec(p.ty_name, tup_prefix()) {
        match tuple_arity_spec(p.ty_name) {
            None => Some(
                "Invalid tuple type in function spec for '"@ + p.name + "': "@ + p.ty_name,
            ),
            Some(n) => match a {
                JsonValue::Array(xs) => if xs@.len() == n {
                    None
                } else {
                    Some(
                        "Tuple arity mismatch: expected "@ + dec_of(n as nat) + ", got "@
                            + dec_of(xs@.len()),
                    )
                },
                _ => Some(
                    "Argument '"@ + p.name + "' expects tuple with "@ + dec_of(n as nat)
                        + " elements, got "@ + json_kind_text(a),
                ),
            },
        }
    } else {
        None
    }
}

/// Normalise one argument against one parameter.
fn normalize_value(p: &SpecParam, a: JsonValue) -> (r: Result<JsonValue, crate::DebuggerError>)
    ensures
        match r {
            Ok(v) => normalize_value_err(p@, a) is None && normalize_value_ok(p@, a, v),
            Err(e) => normalize_value_err(p@, a) is Some && (match e {
                crate::DebuggerError::InvalidArguments(m) => Some(m@) == normalize_value_err(
                    p@,
                    a,
                ),
                _ => false,
            }),
        },
{
    let tn = crate::strutil::chars_of(p.ty_name.as_str());
    let mut op: Vec<char> = Vec::new();
    op.push('O');
    op.push('p');
    op.push('t');
    op.push('i');
    op.push('o');
    op.push('n');
    op.push('<');
    let mut tp: Vec<char> = Vec::new();
    tp.push('T');
    tp.push('u');
    tp.push('p');
    tp.push('l');
    tp.push('e');
    tp.push('<');
    proof {
        assert(op@ =~= opt_prefix());
        assert(tp@ =~= tup_prefix());
    }
    if crate::strutil::starts_with(tn.as_slice(), op.as_slice()) {
        if crate::json::is_typed_annotation(&a) {
            Ok(a)
        } else {
            let mut fields: Vec<(String, JsonValue)> = Vec::new();
            fields.push(("type".to_owned(), JsonValue::String("option".to_owned())));
            fields.push(("value".to_owned(), a));
            Ok(JsonValue::Object(fields))
        }
    } else if crate::strutil::starts_with(tn.as_slice(), tp.as_slice()) {
        match tuple_arity_from_type_name(p.ty_name.as_str()) {
            None => {
                let mut m = "Invalid tuple type in function spec for '".to_owned();
                m.append(p.name.as_str());
                m.append("': ");
                m.append(p.ty_name.as_str());
                Err(crate::DebuggerError::InvalidArguments(m))
            },
            Some(n) => {
                let is_array = match &a {
                    JsonValue::Array(_) => true,
                    _ => false,
                };
                if !is_array {
                    let mut m = "Argument '".to_owned();
                    m.append(p.name.as_str());
                    m.append("' expects tuple with ");
                    let nd = crate::decimal::u128_to_dec(n as u128);
                    m.append(crate::strutil::string_of(nd.as_slice()).as_str());
                    m.append(" elements, got ");
                    m.append(json_kind_name(&a));
                    return Err(crate::DebuggerError::InvalidArguments(m));
                }
                let len = match &a {
                    JsonValue::Array(xs) => xs.len(),
                    _ => 0,
                };
                if len != n {
                    let mut m = "Tuple arity mismatch: expected ".to_owned();
                    let nd = crate::decimal::u128_to_dec(n as u128);
                    m.append(crate::strutil::string_of(nd.as_slice()).as_str());
                    m.append(", got ");
                    let ld = crate::decimal::u128_to_dec(len as u128);
                    m.append(crate::strutil::string_of(ld.as_slice()).as_str());
                    return Err(crate::DebuggerError::InvalidArguments(m));
                }
                let mut fields: Vec<(String, JsonValue)> = Vec::new();
                let nd = crate::decimal::u128_to_dec(n as u128);
                fields.push(
                    ("arity".to_owned(), JsonValue::Number(
                        crate::strutil::string_of(nd.as_slice()),
                    )),
                );
                fields.push(("type".to_owned(), JsonValue::String("tuple".to_owned())));
                fields.push(("value".to_owned(), a));
                Ok(JsonValue::Object(fields))
            },
        }
    } else {
        Ok(a)
    }
}

/// A whole argument list normalises element by element; unmatched trailing
/// arguments pass through.
pub open spec fn normalize_seq_ok(
    params: Seq<SpecParamView>,
    args: Seq<JsonValue>,
    out: Seq<JsonValue>,
) -> bool {
    &&& out.len() == args.len()
    &&& forall|i: int|
        0 <= i < args.len() ==> if i < params.len() {
            normalize_value_ok(params[i], args[i], #[trigger] out[i])
        } else {
            out[i] == args[i]
        }
}

/// The first error normalising the arguments from position `i` on raises.
pub open spec fn normalize_seq_err(
    params: Seq<SpecParamView>,
    args: Seq<JsonValue>,
    i: int,
) -> Option<Seq<char>>
    decreases args.len() - i,
        when 0 <= i
{
    if i >= args.len() || i >= params.len() {
        None
    } else {
        match normalize_value_err(params[i], args[i]) {
            Some(m) => Some(m),
            None => normalize_seq_err(params, args, i + 1),
        }
    }
}

/// Normalise an argument list against a parameter list, in place.
pub fn normalize_values(params: &Vec<SpecParam>, args: &mut Vec<JsonValue>) -> (r: Result<
    (),
    crate::DebuggerError,
>)
    ensures
        match r {
            Ok(u) => normalize_seq_err(params@.map_values(|p: SpecParam| p@), old(args)@, 0)
                is None && normalize_seq_ok(
                params@.map_values(|p: SpecParam| p@),
                old(args)@,
                final(args)@,
            ),
            Err(e) => normalize_seq_err(params@.map_values(|p: SpecParam| p@), old(args)@, 0)
                is Some && (match e {
                crate::DebuggerError::InvalidArguments(m) => m@ == normalize_seq_err(
                    params@.map_values(|p: SpecParam| p@),
                    old(args)@,
                    0,
                )->0,
                _ => false,
            }),
        },
{
    let ghost pv = params@.map_values(|p: SpecParam| p@);
    let ghost av = old(args)@;
    let mut rev: Vec<JsonValue> = Vec::new();
    while args.len() > 0
        invariant
            av =~= args@ + rev@.reverse(),
        decreases args@.len(),
    {
        let ghost pre = args@;
        let e = match args.pop() {
            Some(e) => e,
            None => {
                proof {
                    assert(false);
                }
                unreached()
            },
        };
        let ghost krpre = rev@;
        rev.push(e);
        proof {
            assert(args@ =~= pre.drop_last());
            assert(rev@.reverse() =~= seq![e] + krpre.reverse());
            assert(pre.drop_last() + (seq![e] + krpre.reverse()) =~= pre + krpre.reverse());
        }
    }
    proof {
        assert(av =~= rev@.reverse());
    }
    let n = rev.len();
    let mut i: usize = 0;
    proof {
        assert(av.skip(0) =~= av);
    }
    while i < n
        invariant
            i <= n,
            n == av.len(),
            av == old(args)@,
            pv == params@.map_values(|p: SpecParam| p@),
            rev@.reverse() =~= av.skip(i as int),
            rev@.len() == n - i,
            args@.len() == i,
            normalize_seq_err(pv, av, 0) == normalize_seq_err(pv, av, i as int),
            forall|j: int|
                0 <= j < i ==> if j < pv.len() {
                    normalize_value_ok(pv[j], av[j], #[trigger] args@[j])
                } else {
                    args@[j] == av[j]
                },
        decreases n - i,
    {
        let ghost pre = rev@;
        let a = match rev.pop() {
            Some(a) => a,
            None => {
                proof {
                    assert(false);
                }
                unreached()
            },
        };
        proof {
            assert(a == pre.last());
            assert(pre.reverse()[0] == pre.last());
            assert(av.skip(i as int)[0] == av[i as int]);
            assert(a == av[i as int]);
            assert(rev@ =~= pre.drop_last());
            assert(rev@.reverse() =~= av.skip(i + 1)) by {
                assert forall|k: int| 0 <= k < rev@.len() implies rev@.reverse()[k] == av.skip(
                    i + 1,
                )[k] by {
                    assert(rev@.reverse()[k] == pre.drop_last()[pre.len() - 2 - k]);
                    assert(pre.reverse()[k + 1] == pre[pre.len() - 2 - k]);
                    assert(av.skip(i as int)[k + 1] == av[i + 1 + k]);
                }
            }
        }
        if i < params.len() {
            proof {
                assert(pv[i as int] == params@[i as int]@);
            }
            match normalize_value(&params[i], a) {
                Ok(v) => {
                    args.push(v);
                },
                Err(e) => {
                    proof {
                        assert(normalize_value_err(pv[i as int], av[i as int]) is Some);
                        assert(i < av.len() && i < pv.len());
                        assert(normalize_seq_err(pv, av, i as int) == normalize_value_err(
                            pv[i as int],
                            av[i as int],
                        ));
                        assert(normalize_seq_err(pv, av, 0) is Some);
                    }
                    return Err(e);
                },
            }
        } else {
            args.push(a);
        }
        i += 1;
    }
    proof {
        assert(normalize_seq_err(pv, av, n as int) is None);
    }
    Ok(())
}

/// The kind word of a document.
fn json_kind_name(v: &JsonValue) -> (r: &'static str)
    ensures
        r@ == json_kind_text(*v),
{
    match v {
        JsonValue::Null => "null",
        JsonValue::Bool(_) => "boolean",
        JsonValue::Number(_) => "number",
        JsonValue::String(_) => "string",
        JsonValue::Array(_) => "array",
        JsonValue::Object(_) => "object",
    }
}

/// The views of a spec-function list.
pub open spec fn spec_fn_views(s: Seq<SpecFunction>) -> Seq<SpecFunctionView> {
    s.map_values(|f: SpecFunction| f@)
}

/// The first spec-section function bearing `name`.
pub open spec fn find_spec_fn(sigs: Seq<SpecFunctionView>, name: Seq<char>) -> Option<
    SpecFunctionView,
>
    decreases sigs.len(),
{
    if sigs.len() == 0 {
        None
    } else if sigs[0].name == name {
        Some(sigs[0])
    } else {
        find_spec_fn(sigs.drop_first(), name)
    }
}

/// The error normalising an argument string raises, if any: unparsable JSON,
/// or a per-argument failure; an unknown function or a non-array document
/// raise none.
pub open spec fn normalize_outcome_err(
    sigs: Seq<SpecFunctionView>,
    fname: Seq<char>,
    aj: Seq<char>,
) -> Option<Seq<char>> {
    match find_spec_fn(sigs, fname) {
        None => None,
        Some(f) => match crate::json::json_parse_of(aj) {
            None => Some("Invalid JSON in --args"@),
            Some(doc) => match doc {
                JsonValue::Array(xs) => normalize_seq_err(f.params, xs@, 0),
                _ => None,
            },
        },
    }
}

/// What a successful normalisation of an argument string produces: the
/// input unchanged when the function is unknown or the document is no
/// array, else the rewritten array's JSON text.
pub open spec fn normalize_outcome_ok(
    sigs: Seq<SpecFunctionView>,
    fname: Seq<char>,
    aj: Seq<char>,
    out_s: Seq<char>,
) -> bool {
    match find_spec_fn(sigs, fname) {
        None => out_s == aj,
        Some(f) => match crate::json::json_parse_of(aj) {
            None => false,
            Some(doc) => match doc {
                JsonValue::Array(xs) => exists|out: Seq<JsonValue>|
                    #[trigger] normalize_seq_ok(f.params, xs@, out) && out_s == seq!['[']
                        + crate::json::render_items(out) + seq![']'],
                _ => out_s == aj,
            },
        },
    }
}

/// Normalise an argument JSON string against the contract's spec-section
/// signature of `function`: `Option` arguments gain their envelope, `Tuple`
/// arguments are arity-checked and gain theirs; an unknown function or a
/// non-array document passes through unchanged.
pub fn normalize_args_for_function(
    signatures: &Vec<SpecFunction>,
    function: &str,
    args_json: &str,
) -> (r: Result<String, crate::DebuggerError>)
    ensures
        match r {
            Ok(s) => normalize_outcome_err(
                signatures@.map_values(|f: SpecFunction| f@),
                function@,
                args_json@,
            ) is None && normalize_outcome_ok(
                signatures@.map_values(|f: SpecFunction| f@),
                function@,
                args_json@,
                s@,
            ),
            Err(e) => normalize_outcome_err(
                signatures@.map_values(|f: SpecFunction| f@),
                function@,
                args_json@,
            ) is Some && (match e {
                crate::DebuggerError::InvalidArguments(m) => m@ == normalize_outcome_err(
                    signatures@.map_values(|f: SpecFunction| f@),
                    function@,
                    args_json@,
                )->0,
                _ => false,
            }),
        },
{
    let ghost sv = signatures@.map_values(|f: SpecFunction| f@);
    let fc = crate::strutil::chars_of(function);
    let found = find_sig_index(signatures, fc.as_slice());
    let sig_idx = match found {
        None => {
            let mut out = String::new();
            out.append(args_json);
            return Ok(out);
        },
        Some(k) => k,
    };
    let parsed = crate::json::json_parse(args_json);
    let doc = match parsed {
        None => {
            return Err(
                crate::DebuggerError::InvalidArguments("Invalid JSON in --args".to_owned()),
            );
        },
        Some(doc) => doc,
    };
    match doc {
        JsonValue::Array(xs) => {
            let mut xs = xs;
            let ghost xv = xs@;
            match normalize_values(&signatures[sig_idx].params, &mut xs) {
                Ok(u) => {
                    proof {
                        assert(sv[sig_idx as int].params == signatures@[sig_idx as int]@.params);
                    }
                    let rendered = crate::json::render_json(&JsonValue::Array(xs));
                    let out = crate::strutil::string_of(rendered.as_slice());
                    proof {
                        assert(crate::json::render_spec(JsonValue::Array(xs)) == seq!['[']
                            + crate::json::render_items(xs@) + seq![']']);
                    }
                    Ok(out)
                },
                Err(e) => {
                    proof {
                        assert(sv[sig_idx as int].params == signatures@[sig_idx as int]@.params);
                    }
                    Err(e)
                },
            }
        },
        other => {
            let mut out = String::new();
            out.append(args_json);
            Ok(out)
        },
    }
}

/// The index of the first spec-section function bearing the name.
pub fn find_sig_index(signatures: &Vec<SpecFunction>, fc: &[char]) -> (r: Option<usize>)
    ensures
        match r {
            Some(k) => k < signatures@.len() && find_spec_fn(
                signatures@.map_values(|f: SpecFunction| f@),
                fc@,
            ) == Some(signatures@.map_values(|f: SpecFunction| f@)[k as int]),
            None => find_spec_fn(signatures@.map_values(|f: SpecFunction| f@), fc@) is None,
        },
{
    let ghost sv = signatures@.map_values(|f: SpecFunction| f@);
    let mut idx: usize = 0;
    proof {
        assert(sv.skip(0) =~= sv);
    }
    while idx < signatures.len()
        invariant
            idx <= signatures@.len(),
            sv == signatures@.map_values(|f: SpecFunction| f@),
            find_spec_fn(sv, fc@) == find_spec_fn(sv.skip(idx as int), fc@),
        decreases signatures@.len() - idx,
    {
        proof {
            assert(sv.skip(idx as int)[0] == sv[idx as int]);
            assert(sv.skip(idx as int).drop_first() =~= sv.skip(idx + 1));
        }
        let nc = crate::strutil::chars_of(signatures[idx].name.as_str());
        if crate::strutil::chars_eq(nc.as_slice(), fc) {
            return Some(idx);
        }
        idx += 1;
    }
    proof {
        assert(sv.skip(signatures@.len() as int) =~= Seq::<SpecFunctionView>::empty());
    }
    None
}

/// Law: normalising a second time changes nothing, for parameter lists
/// without tuple parameters. A normalised `Option` argument is already an
/// envelope, so the second pass leaves every element untouched. (A tuple
/// argument does not enjoy this: its envelope is an object where the second
/// pass expects an array.)
pub proof fn lemma_normalize_idempotent(
    params: Seq<SpecParamView>,
    args: Seq<JsonValue>,
    out: Seq<JsonValue>,
)
    requires
        normalize_seq_ok(params, args, out),
        forall|i: int|
            0 <= i < params.len() ==> !starts_with_spec(
                (#[trigger] params[i]).ty_name,
                tup_prefix(),
            ),
    ensures
        normalize_seq_ok(params, out, out),
        normalize_seq_err(params, out, 0) is None,
{
    assert forall|i: int| 0 <= i < out.len() implies (if i < params.len() {
        normalize_value_ok(params[i], out[i], #[trigger] out[i])
    } else {
        out[i] == out[i]
    }) by {
        if i < params.len() {
            lemma_value_idempotent(params[i], args[i], out[i]);
        }
    }
    lemma_seq_err_none(params, out, 0);
}

/// One normalised value re-normalises to itself (tuple parameters aside).
proof fn lemma_value_idempotent(p: SpecParamView, a: JsonValue, r: JsonValue)
    requires
        normalize_value_ok(p, a, r),
        !starts_with_spec(p.ty_name, tup_prefix()),
    ensures
        normalize_value_ok(p, r, r),
        normalize_value_err(p, r) is None,
{
    if starts_with_spec(p.ty_name, opt_prefix()) {
        if is_typed_annotation_spec(a) {
        } else {
            assert(envelope2(r, "option"@, a));
            lemma_envelope2_is_annotation(r);
        }
    }
}

/// A two-field envelope is a typed annotation.
proof fn lemma_envelope2_is_annotation(r: JsonValue)
    requires
        exists|tag: Seq<char>, inner: JsonValue| #[trigger] envelope2(r, tag, inner),
    ensures
        is_typed_annotation_spec(r),
{
    let (tag, inner) = choose|tag: Seq<char>, inner: JsonValue| #[trigger] envelope2(
        r,
        tag,
        inner,
    );
    match r {
        JsonValue::Object(f) => {
            reveal_strlit("type");
            reveal_strlit("value");
            assert(f@[0].0@ == "type"@);
            assert(obj_lookup(f@, "type"@) is Some);
            assert("type"@.len() == 4);
            assert("value"@.len() == 5);
            assert("type"@ != "value"@);
            assert(f@.drop_first()[0] == f@[1]);
            assert(obj_lookup(f@.drop_first(), "value"@) is Some);
            assert(obj_lookup(f@, "value"@) is Some);
        },
        _ => {
            assert(false);
        },
    }
}

/// No element of a normalised list raises an error on a second pass.
proof fn lemma_seq_err_none(params: Seq<SpecParamView>, out: Seq<JsonValue>, i: int)
    requires
        0 <= i,
        forall|j: int|
            0 <= j < params.len() ==> !starts_with_spec(
                (#[trigger] params[j]).ty_name,
                tup_prefix(),
            ),
    ensures
        normalize_seq_err(params, out, i) is None,
    decreases out.len() - i,
{
    if i < out.len() && i < params.len() {
        assert(normalize_value_err(params[i], out[i]) is None);
        lemma_seq_err_none(params, out, i + 1);
    }
}


} // verus!
