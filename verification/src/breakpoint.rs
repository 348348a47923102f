//! Conditional breakpoints: condition grammar, evaluation against a storage
//! snapshot and an argument document, and the breakpoint table.

use vstd::prelude::*;

use crate::decimal::is_signed_dec;
use crate::decimal::parse_dec_i128;
use crate::decimal::signed_dec_value;
use crate::json::arg_text_of;
use crate::json::json_parse;
use crate::json::json_parse_of;
use crate::json::obj_lookup;
use crate::json::JsonValue;
use crate::kv::StrMap;
use crate::strutil::chars_of;
use crate::strutil::find_sub;
use crate::strutil::find_sub_spec;
use crate::strutil::starts_with;
use crate::strutil::starts_with_spec;
use crate::strutil::trim;
use crate::strutil::trim_spec;
use crate::strutil::trim_start_spec;
use crate::strutil::trim_end_spec;
use crate::strutil::lex_cmp;
use crate::strutil::lex_cmp_spec;
use crate::strutil::string_of;
use crate::strutil::CmpResult;

verus! {

/// A comparison operator of the condition grammar.
#[derive(Debug, Clone, Copy, PartialEq, Eq, Structural)]
pub enum Operator {
    Eq,
    Ne,
    Gt,
    Lt,
    Ge,
    Le,
}

/// The operator's source text.
pub open spec fn op_text(op: Operator) -> Seq<char> {
    match op {
        Operator::Eq => seq!['=', '='],
        Operator::Ne => seq!['!', '='],
        Operator::Gt => seq!['>'],
        Operator::Lt => seq!['<'],
        Operator::Ge => seq!['>', '='],
        Operator::Le => seq!['<', '='],
    }
}

impl Operator {
    /// The operator's source text.
    pub fn render(&self) -> (r: String)
        ensures
            r@ == op_text(*self),
    {
        let mut cs: Vec<char> = Vec::new();
        match self {
            Operator::Eq => {
                cs.push('=');
                cs.push('=');
            },
            Operator::Ne => {
                cs.push('!');
                cs.push('=');
            },
            Operator::Gt => {
                cs.push('>');
            },
            Operator::Lt => {
                cs.push('<');
            },
            Operator::Ge => {
                cs.push('>');
                cs.push('=');
            },
            Operator::Le => {
                cs.push('<');
                cs.push('=');
            },
        }
        proof {
            assert(cs@ =~= op_text(*self));
        }
        string_of(cs.as_slice())
    }
}

/// A breakpoint condition: a predicate over the storage snapshot or over the
/// invocation's argument document.
#[derive(Debug, PartialEq, Eq)]
pub enum Condition {
    /// `storage[key] OP value`
    Storage { key: String, operator: Operator, value: String },
    /// `name OP value`
    Argument { name: String, operator: Operator, value: String },
}

/// The mathematical form of a condition.
pub enum ConditionView {
    Storage { key: Seq<char>, operator: Operator, value: Seq<char> },
    Argument { name: Seq<char>, operator: Operator, value: Seq<char> },
}

impl View for Condition {
    type V = ConditionView;

    open spec fn view(&self) -> ConditionView {
        match self {
            Condition::Storage { key, operator, value } => ConditionView::Storage {
                key: key@,
                operator: *operator,
                value: value@,
            },
            Condition::Argument { name, operator, value } => ConditionView::Argument {
                name: name@,
                operator: *operator,
                value: value@,
            },
        }
    }
}

impl Clone for Condition {
    /// A deep copy with the same view.
    fn clone(&self) -> (r: Self)
        ensures
            r@ == self@,
    {
        match self {
            Condition::Storage { key, operator, value } => Condition::Storage {
                key: crate::kv::clone_string(key),
                operator: *operator,
                value: crate::kv::clone_string(value),
            },
            Condition::Argument { name, operator, value } => Condition::Argument {
                name: crate::kv::clone_string(name),
                operator: *operator,
                value: crate::kv::clone_string(value),
            },
        }
    }
}

/// The source text of a condition: `storage[key] OP value` or
/// `name OP value`.
pub open spec fn cond_text(c: ConditionView) -> Seq<char> {
    match c {
        ConditionView::Storage { key, operator, value } => seq![
            's',
            't',
            'o',
            'r',
            'a',
            'g',
            'e',
            '[',
        ] + key + seq![']', ' '] + op_text(operator) + seq![' '] + value,
        ConditionView::Argument { name, operator, value } => name + seq![' '] + op_text(
            operator,
        ) + seq![' '] + value,
    }
}

impl Condition {
    /// The condition's source text.
    pub fn render(&self) -> (r: String)
        ensures
            r@ == cond_text(self@),
    {
        let mut cs: Vec<char> = Vec::new();
        match self {
            Condition::Storage { key, operator, value } => {
                cs.push('s');
                cs.push('t');
                cs.push('o');
                cs.push('r');
                cs.push('a');
                cs.push('g');
                cs.push('e');
                cs.push('[');
                let kc = chars_of(key.as_str());
                crate::json::append_chars(&mut cs, kc.as_slice());
                cs.push(']');
                cs.push(' ');
                let oc = chars_of(operator.render().as_str());
                crate::json::append_chars(&mut cs, oc.as_slice());
                cs.push(' ');
                let vc = chars_of(value.as_str());
                crate::json::append_chars(&mut cs, vc.as_slice());
                proof {
                    assert(cs@ =~= cond_text(self@));
                }
            },
            Condition::Argument { name, operator, value } => {
                let nc = chars_of(name.as_str());
                crate::json::append_chars(&mut cs, nc.as_slice());
                cs.push(' ');
                let oc = chars_of(operator.render().as_str());
                crate::json::append_chars(&mut cs, oc.as_slice());
                cs.push(' ');
                let vc = chars_of(value.as_str());
                crate::json::append_chars(&mut cs, vc.as_slice());
                proof {
                    assert(cs@ =~= cond_text(self@));
                }
            },
        }
        string_of(cs.as_slice())
    }
}

/// The signed value of `s` lies within the signed 128-bit range.
pub open spec fn fits_i128(s: Seq<char>) -> bool {
    is_signed_dec(s) && i128::MIN <= signed_dec_value(s) <= i128::MAX
}

/// Apply an operator to a three-way comparison outcome.
pub open spec fn op_holds(op: Operator, c: CmpResult) -> bool {
    match op {
        Operator::Eq => c == CmpResult::Eq,
        Operator::Ne => c != CmpResult::Eq,
        Operator::Gt => c == CmpResult::Gt,
        Operator::Lt => c == CmpResult::Lt,
        Operator::Ge => c != CmpResult::Lt,
        Operator::Le => c != CmpResult::Gt,
    }
}

/// Three-way comparison of two integers.
pub open spec fn int_cmp(a: int, b: int) -> CmpResult {
    if a < b {
        CmpResult::Lt
    } else if a == b {
        CmpResult::Eq
    } else {
        CmpResult::Gt
    }
}

/// How two condition values compare: numerically when both read as signed
/// 128-bit integers, lexicographically otherwise.
pub open spec fn spec_compare_values(actual: Seq<char>, expected: Seq<char>, op: Operator) -> bool {
    if fits_i128(actual) && fits_i128(expected) {
        op_holds(op, int_cmp(signed_dec_value(actual), signed_dec_value(expected)))
    } else {
        op_holds(op, lex_cmp_spec(actual, expected))
    }
}

/// Compare two values as the breakpoint evaluator does: numerically when both
/// parse as signed 128-bit integers, else lexicographically by character.
fn compare_values_impl(actual: &str, expected: &str, op: Operator) -> (r: bool)
    ensures
        r == spec_compare_values(actual@, expected@, op),
{
    let ac = chars_of(actual);
    let ec = chars_of(expected);
    let an = parse_dec_i128(ac.as_slice());
    let en = parse_dec_i128(ec.as_slice());
    let c = match (an, en) {
        (Some(a), Some(e)) => {
            if a < e {
                CmpResult::Lt
            } else if a == e {
                CmpResult::Eq
            } else {
                CmpResult::Gt
            }
        },
        _ => lex_cmp(ac.as_slice(), ec.as_slice()),
    };
    match op {
        Operator::Eq => matches!(c, CmpResult::Eq),
        Operator::Ne => !matches!(c, CmpResult::Eq),
        Operator::Gt => matches!(c, CmpResult::Gt),
        Operator::Lt => matches!(c, CmpResult::Lt),
        Operator::Ge => !matches!(c, CmpResult::Lt),
        Operator::Le => !matches!(c, CmpResult::Gt),
    }
}

/// Starting with a two-character pattern is the same as the first two
/// characters matching.
pub proof fn lemma_starts2(s: Seq<char>, a: char, b: char)
    ensures
        starts_with_spec(s, seq![a, b]) <==> (s.len() >= 2 && s[0] == a && s[1] == b),
{
    if s.len() >= 2 {
        if s[0] == a && s[1] == b {
            assert(s.subrange(0, 2) =~= seq![a, b]);
        }
        if starts_with_spec(s, seq![a, b]) {
            assert(s.subrange(0, 2)[0] == s[0]);
            assert(s.subrange(0, 2)[1] == s[1]);
        }
    }
}

/// Starting with a one-character pattern is the same as the first character
/// matching.
pub proof fn lemma_starts1(s: Seq<char>, a: char)
    ensures
        starts_with_spec(s, seq![a]) <==> (s.len() >= 1 && s[0] == a),
{
    if s.len() >= 1 {
        if s[0] == a {
            assert(s.subrange(0, 1) =~= seq![a]);
        }
        if starts_with_spec(s, seq![a]) {
            assert(s.subrange(0, 1)[0] == s[0]);
        }
    }
}

/// The leading text of a storage condition.
pub open spec fn storage_prefix() -> Seq<char> {
    seq!['s', 't', 'o', 'r', 'a', 'g', 'e', '[']
}

/// The first operator found in `s`, trying each operator's text in the fixed
/// order `>=`, `<=`, `==`, `!=`, `>`, `<` and taking its first occurrence.
pub open spec fn find_op_spec(s: Seq<char>) -> Option<(Operator, int)> {
    if find_sub_spec(s, op_text(Operator::Ge)) is Some {
        Some((Operator::Ge, find_sub_spec(s, op_text(Operator::Ge))->0))
    } else if find_sub_spec(s, op_text(Operator::Le)) is Some {
        Some((Operator::Le, find_sub_spec(s, op_text(Operator::Le))->0))
    } else if find_sub_spec(s, op_text(Operator::Eq)) is Some {
        Some((Operator::Eq, find_sub_spec(s, op_text(Operator::Eq))->0))
    } else if find_sub_spec(s, op_text(Operator::Ne)) is Some {
        Some((Operator::Ne, find_sub_spec(s, op_text(Operator::Ne))->0))
    } else if find_sub_spec(s, op_text(Operator::Gt)) is Some {
        Some((Operator::Gt, find_sub_spec(s, op_text(Operator::Gt))->0))
    } else if find_sub_spec(s, op_text(Operator::Lt)) is Some {
        Some((Operator::Lt, find_sub_spec(s, op_text(Operator::Lt))->0))
    } else {
        None
    }
}

/// How a condition remainder splits: the operator its text starts with, tried
/// in the order `==`, `!=`, `>=`, `<=`, `>`, `<`, and the trimmed rest.
pub open spec fn split_op_spec(s: Seq<char>) -> Option<(Operator, Seq<char>)> {
    if starts_with_spec(s, op_text(Operator::Eq)) {
        Some((Operator::Eq, trim_spec(s.skip(2))))
    } else if starts_with_spec(s, op_text(Operator::Ne)) {
        Some((Operator::Ne, trim_spec(s.skip(2))))
    } else if starts_with_spec(s, op_text(Operator::Ge)) {
        Some((Operator::Ge, trim_spec(s.skip(2))))
    } else if starts_with_spec(s, op_text(Operator::Le)) {
        Some((Operator::Le, trim_spec(s.skip(2))))
    } else if starts_with_spec(s, op_text(Operator::Gt)) {
        Some((Operator::Gt, trim_spec(s.skip(1))))
    } else if starts_with_spec(s, op_text(Operator::Lt)) {
        Some((Operator::Lt, trim_spec(s.skip(1))))
    } else {
        None
    }
}

/// What parsing a condition string yields: a storage predicate when the text
/// begins with `storage[`, an argument predicate when an operator occurs, and
/// nothing otherwise.
pub open spec fn parse_condition_spec(s: Seq<char>) -> Option<ConditionView> {
    if starts_with_spec(s, storage_prefix()) {
        match find_sub_spec(s, seq![']']) {
            None => None,
            Some(eb) => {
                let rem = trim_spec(s.skip(eb + 1));
                match split_op_spec(rem) {
                    None => None,
                    Some((op, value)) => Some(
                        ConditionView::Storage { key: s.subrange(8, eb), operator: op, value },
                    ),
                }
            },
        }
    } else {
        match find_op_spec(s) {
            None => None,
            Some((op, pos)) => Some(
                ConditionView::Argument {
                    name: trim_spec(s.subrange(0, pos)),
                    operator: op,
                    value: trim_spec(s.skip(pos + op_text(op).len())),
                },
            ),
        }
    }
}

/// Find the first operator occurring in `s`, trying two-character operators
/// before one-character ones; gives the operator's text and its position.
pub fn find_operator(s: &str) -> (r: Option<(&'static str, usize)>)
    ensures
        match r {
            Some(p) => find_op_spec(s@) is Some && p.0@ == op_text((find_op_spec(s@)->0).0)
                && p.1 == (find_op_spec(s@)->0).1,
            None => find_op_spec(s@) is None,
        },
{
    let cs = chars_of(s);
    let mut pat: Vec<char> = Vec::new();
    pat.push('>');
    pat.push('=');
    proof {
        assert(pat@ =~= op_text(Operator::Ge));
    }
    if let Some(i) = find_sub(cs.as_slice(), pat.as_slice()) {
        proof {
            reveal_strlit(">=");
            assert(">="@ =~= op_text(Operator::Ge));
        }
        return Some((">=", i));
    }
    let mut pat: Vec<char> = Vec::new();
    pat.push('<');
    pat.push('=');
    proof {
        assert(pat@ =~= op_text(Operator::Le));
    }
    if let Some(i) = find_sub(cs.as_slice(), pat.as_slice()) {
        proof {
            reveal_strlit("<=");
            assert("<="@ =~= op_text(Operator::Le));
        }
        return Some(("<=", i));
    }
    let mut pat: Vec<char> = Vec::new();
    pat.push('=');
    pat.push('=');
    proof {
        assert(pat@ =~= op_text(Operator::Eq));
    }
    if let Some(i) = find_sub(cs.as_slice(), pat.as_slice()) {
        proof {
            reveal_strlit("==");
            assert("=="@ =~= op_text(Operator::Eq));
        }
        return Some(("==", i));
    }
    let mut pat: Vec<char> = Vec::new();
    pat.push('!');
    pat.push('=');
    proof {
        assert(pat@ =~= op_text(Operator::Ne));
    }
    if let Some(i) = find_sub(cs.as_slice(), pat.as_slice()) {
        proof {
            reveal_strlit("!=");
            assert("!="@ =~= op_text(Operator::Ne));
        }
        return Some(("!=", i));
    }
    let mut pat: Vec<char> = Vec::new();
    pat.push('>');
    proof {
        assert(pat@ =~= op_text(Operator::Gt));
    }
    if let Some(i) = find_sub(cs.as_slice(), pat.as_slice()) {
        proof {
            reveal_strlit(">");
            assert(">"@ =~= op_text(Operator::Gt));
        }
        return Some((">", i));
    }
    let mut pat: Vec<char> = Vec::new();
    pat.push('<');
    proof {
        assert(pat@ =~= op_text(Operator::Lt));
    }
    if let Some(i) = find_sub(cs.as_slice(), pat.as_slice()) {
        proof {
            reveal_strlit("<");
            assert("<"@ =~= op_text(Operator::Lt));
        }
        return Some(("<", i));
    }
    None
}

/// Split a condition remainder on its leading operator; the rest, trimmed, is
/// the comparison value.
pub fn split_op_value(s: &str) -> (r: Result<(Operator, String), String>)
    ensures
        match r {
            Ok(p) => split_op_spec(s@) == Some((p.0, p.1@)),
            Err(e) => split_op_spec(s@) is None && e@ == "Invalid operator in condition: "@
                + s@,
        },
{
    let cs = chars_of(s);
    let two = if cs.len() >= 2 {
        Some((cs[0], cs[1]))
    } else {
        None
    };
    let one = if cs.len() >= 1 {
        Some(cs[0])
    } else {
        None
    };
    proof {
        lemma_starts2(s@, '=', '=');
        lemma_starts2(s@, '!', '=');
        lemma_starts2(s@, '>', '=');
        lemma_starts2(s@, '<', '=');
        lemma_starts1(s@, '>');
        lemma_starts1(s@, '<');
        assert(op_text(Operator::Eq) =~= seq!['=', '=']);
        assert(op_text(Operator::Ne) =~= seq!['!', '=']);
        assert(op_text(Operator::Ge) =~= seq!['>', '=']);
        assert(op_text(Operator::Le) =~= seq!['<', '=']);
        assert(op_text(Operator::Gt) =~= seq!['>']);
        assert(op_text(Operator::Lt) =~= seq!['<']);
    }
    let op: Option<(Operator, usize)> = match two {
        Some(('=', '=')) => Some((Operator::Eq, 2)),
        Some(('!', '=')) => Some((Operator::Ne, 2)),
        Some(('>', '=')) => Some((Operator::Ge, 2)),
        Some(('<', '=')) => Some((Operator::Le, 2)),
        _ => match one {
            Some('>') => Some((Operator::Gt, 1)),
            Some('<') => Some((Operator::Lt, 1)),
            _ => None,
        },
    };
    match op {
        Some((operator, w)) => {
            let rest = vstd::slice::slice_subrange(cs.as_slice(), w, cs.len());
            proof {
                assert(rest@ =~= s@.skip(w as int));
                assert(s@.subrange(0, w as int) =~= op_text(operator));
                assert(starts_with_spec(s@, op_text(operator)));
            }
            let value = trim(rest);
            Ok((operator, string_of(value.as_slice())))
        },
        None => {
            let mut msg = String::new();
            msg.append("Invalid operator in condition: ");
            msg.append(s);
            Err(msg)
        },
    }
}

/// The width of an operator's text.
pub fn op_width(op: Operator) -> (r: usize)
    ensures
        r == op_text(op).len(),
{
    match op {
        Operator::Gt => 1,
        Operator::Lt => 1,
        _ => 2,
    }
}

/// Find the first operator in `s`, as the operator itself and its position.
fn find_op(s: &str) -> (r: Option<(Operator, usize)>)
    ensures
        match r {
            Some(p) => find_op_spec(s@) == Some((p.0, p.1 as int)),
            None => find_op_spec(s@) is None,
        },
{
    let cs = chars_of(s);
    let mut ge: Vec<char> = Vec::new();
    ge.push('>');
    ge.push('=');
    let mut le: Vec<char> = Vec::new();
    le.push('<');
    le.push('=');
    let mut eq: Vec<char> = Vec::new();
    eq.push('=');
    eq.push('=');
    let mut ne: Vec<char> = Vec::new();
    ne.push('!');
    ne.push('=');
    let mut gt: Vec<char> = Vec::new();
    gt.push('>');
    let mut lt: Vec<char> = Vec::new();
    lt.push('<');
    proof {
        assert(ge@ =~= op_text(Operator::Ge));
        assert(le@ =~= op_text(Operator::Le));
        assert(eq@ =~= op_text(Operator::Eq));
        assert(ne@ =~= op_text(Operator::Ne));
        assert(gt@ =~= op_text(Operator::Gt));
        assert(lt@ =~= op_text(Operator::Lt));
    }
    if let Some(i) = find_sub(cs.as_slice(), ge.as_slice()) {
        return Some((Operator::Ge, i));
    }
    if let Some(i) = find_sub(cs.as_slice(), le.as_slice()) {
        return Some((Operator::Le, i));
    }
    if let Some(i) = find_sub(cs.as_slice(), eq.as_slice()) {
        return Some((Operator::Eq, i));
    }
    if let Some(i) = find_sub(cs.as_slice(), ne.as_slice()) {
        return Some((Operator::Ne, i));
    }
    if let Some(i) = find_sub(cs.as_slice(), gt.as_slice()) {
        return Some((Operator::Gt, i));
    }
    if let Some(i) = find_sub(cs.as_slice(), lt.as_slice()) {
        return Some((Operator::Lt, i));
    }
    None
}

/// The error text `parse_condition` reports for an unparsable string.
pub open spec fn parse_cond_err_spec(s: Seq<char>) -> Seq<char> {
    if starts_with_spec(s, storage_prefix()) {
        match find_sub_spec(s, seq![']']) {
            None => "Missing closed bracket ']' in storage condition"@,
            Some(eb) => "Invalid operator in condition: "@ + trim_spec(s.skip(eb + 1)),
        }
    } else {
        "No operator found (use ==, !=, >, <, >=, <=)"@
    }
}

/// A registered breakpoint: a function name with an optional condition.
#[derive(Debug)]
pub struct Breakpoint {
    pub function: String,
    pub condition: Option<Condition>,
}

/// The mathematical form of a breakpoint.
pub struct BreakpointView {
    pub function: Seq<char>,
    pub condition: Option<ConditionView>,
}

/// The view of an optional condition.
pub open spec fn opt_cond_view(c: Option<Condition>) -> Option<ConditionView> {
    match c {
        None => None,
        Some(x) => Some(x@),
    }
}

impl View for Breakpoint {
    type V = BreakpointView;

    open spec fn view(&self) -> BreakpointView {
        BreakpointView { function: self.function@, condition: opt_cond_view(self.condition) }
    }
}

impl Clone for Breakpoint {
    /// A deep copy with the same view.
    fn clone(&self) -> (r: Self)
        ensures
            r@ == self@,
    {
        let condition = match &self.condition {
            None => None,
            Some(c) => Some(c.clone()),
        };
        Breakpoint { function: crate::kv::clone_string(&self.function), condition }
    }
}

/// The display text of a breakpoint: the function name, with the condition
/// after `if` in parentheses when one is set.
pub open spec fn bp_text(b: BreakpointView) -> Seq<char> {
    match b.condition {
        Some(c) => b.function + seq![' ', '(', 'i', 'f', ' '] + cond_text(c) + seq![')'],
        None => b.function,
    }
}

impl Breakpoint {
    /// The breakpoint's display text.
    pub fn render(&self) -> (r: String)
        ensures
            r@ == bp_text(self@),
    {
        match &self.condition {
            None => crate::kv::clone_string(&self.function),
            Some(c) => {
                let mut cs = chars_of(self.function.as_str());
                cs.push(' ');
                cs.push('(');
                cs.push('i');
                cs.push('f');
                cs.push(' ');
                let cc = chars_of(c.render().as_str());
                crate::json::append_chars(&mut cs, cc.as_slice());
                cs.push(')');
                proof {
                    assert(cs@ =~= bp_text(self@));
                }
                string_of(cs.as_slice())
            },
        }
    }
}

/// A condition evaluated against a storage snapshot and an optional argument
/// document: a storage predicate reads the snapshot, an argument predicate
/// reads the named field of the parsed argument object. A non-primitive
/// argument value compares by its canonical JSON text (see
/// [`crate::json::arg_text_of`]); that is this library's fixed debug form
/// for such values.
pub open spec fn eval_condition_spec(
    c: ConditionView,
    st: Map<Seq<char>, Seq<char>>,
    args: Option<Seq<char>>,
) -> bool {
    match c {
        ConditionView::Storage { key, operator, value } => st.contains_key(key)
            && spec_compare_values(st[key], value, operator),
        ConditionView::Argument { name, operator, value } => match args {
            None => false,
            Some(a) => match json_parse_of(a) {
                Some(JsonValue::Object(fields)) => match obj_lookup(fields@, name) {
                    Some(v) => spec_compare_values(arg_text_of(v), value, operator),
                    None => false,
                },
                _ => false,
            },
        },
    }
}

/// Execution breaks at `f` when a breakpoint is registered for it and its
/// condition, if any, holds.
pub open spec fn should_break_spec(
    m: Map<Seq<char>, BreakpointView>,
    f: Seq<char>,
    st: Map<Seq<char>, Seq<char>>,
    args: Option<Seq<char>>,
) -> bool {
    m.contains_key(f) && match m[f].condition {
        None => true,
        Some(c) => eval_condition_spec(c, st, args),
    }
}

/// The breakpoint table: at most one breakpoint per function name, the last
/// one registered winning.
pub struct BreakpointManager {
    pub breakpoints: StrMap<Breakpoint>,
}

impl BreakpointManager {
    /// The registered breakpoints, by function name.
    pub open spec fn view(&self) -> Map<Seq<char>, BreakpointView> {
        self.breakpoints.view()
    }

    /// The table is well formed: unique names, and each entry stored under
    /// its own function name.
    pub open spec fn wf(&self) -> bool {
        &&& self.breakpoints.wf()
        &&& forall|i: int|
            0 <= i < self.breakpoints.entries@.len()
                ==> #[trigger] self.breakpoints.entries@[i].1.function@
                == self.breakpoints.entries@[i].0@
    }

    /// An empty table.
    pub fn new() -> (r: Self)
        ensures
            r.wf(),
            r.view() =~= Map::empty(),
    {
        BreakpointManager { breakpoints: StrMap::new() }
    }

    /// Register a breakpoint at a function name, replacing any earlier one
    /// for the same name.
    pub fn add(&mut self, function: &str, condition: Option<Condition>)
        requires
            old(self).wf(),
        ensures
            final(self).wf(),
            final(self).view() =~= old(self).view().insert(
                function@,
                BreakpointView { function: function@, condition: opt_cond_view(condition) },
            ),
    {
        let ghost cond_view = opt_cond_view(condition);
        let bp = Breakpoint { function: function.to_owned(), condition };
        self.breakpoints.insert(function.to_owned(), bp);
        proof {
            crate::kv::lemma_filter_key_map(old(self).breakpoints.entries@, function@);
            let s = self.breakpoints.entries@;
            let f = crate::kv::filter_key(old(self).breakpoints.entries@, function@);
            assert forall|i: int| 0 <= i < s.len() implies #[trigger] s[i].1.function@
                == s[i].0@ by {
                if i < s.len() - 1 {
                    assert(s[i] == f[i]);
                    let j = choose|j: int|
                        0 <= j < old(self).breakpoints.entries@.len() && old(
                            self,
                        ).breakpoints.entries@[j] == f[i];
                    assert(old(self).breakpoints.entries@[j].1.function@ == old(
                        self,
                    ).breakpoints.entries@[j].0@);
                }
            }
        }
    }

    /// Drop the breakpoint at a function name; says whether one was set.
    pub fn remove(&mut self, function: &str) -> (r: bool)
        requires
            old(self).wf(),
        ensures
            final(self).wf(),
            r == old(self).view().contains_key(function@),
            final(self).view() =~= old(self).view().remove(function@),
    {
        let r = self.breakpoints.remove(function);
        proof {
            crate::kv::lemma_filter_key_map(old(self).breakpoints.entries@, function@);
            let s = self.breakpoints.entries@;
            assert forall|i: int| 0 <= i < s.len() implies #[trigger] s[i].1.function@
                == s[i].0@ by {
                let j = choose|j: int|
                    0 <= j < old(self).breakpoints.entries@.len() && old(
                        self,
                    ).breakpoints.entries@[j] == s[i];
                assert(old(self).breakpoints.entries@[j].1.function@ == old(
                    self,
                ).breakpoints.entries@[j].0@);
            }
        }
        r
    }

    /// Whether execution should pause at this function, given the storage
    /// snapshot and the argument document.
    pub fn should_break(
        &self,
        function: &str,
        storage: &StrMap<String>,
        args_json: Option<&str>,
    ) -> (r: bool)
        requires
            self.wf(),
            storage.wf(),
        ensures
            r == should_break_spec(
                self.view(),
                function@,
                storage.view(),
                match args_json {
                    None => None::<Seq<char>>,
                    Some(a) => Some(a@),
                },
            ),
    {
        match self.breakpoints.get(function) {
            None => false,
            Some(bp) => match &bp.condition {
                None => true,
                Some(condition) => Self::evaluate_condition(condition, storage, args_json),
            },
        }
    }

    /// Compare two condition values: numerically when both parse as signed
    /// 128-bit integers, else lexicographically by character.
    pub fn compare_values(&self, actual: &str, expected: &str, op: Operator) -> (r: bool)
        ensures
            r == spec_compare_values(actual@, expected@, op),
    {
        compare_values_impl(actual, expected, op)
    }

    /// Evaluate one condition against storage and arguments.
    fn evaluate_condition(
        condition: &Condition,
        storage: &StrMap<String>,
        args_json: Option<&str>,
    ) -> (r: bool)
        requires
            storage.wf(),
        ensures
            r == eval_condition_spec(
                condition@,
                storage.view(),
                match args_json {
                    None => None::<Seq<char>>,
                    Some(a) => Some(a@),
                },
            ),
    {
        match condition {
            Condition::Storage { key, operator, value } => match storage.get(key.as_str()) {
                Some(actual) => compare_values_impl(actual.as_str(), value.as_str(), *operator),
                None => false,
            },
            Condition::Argument { name, operator, value } => match args_json {
                None => false,
                Some(astr) => match json_parse(astr) {
                    Some(doc) => match doc {
                        JsonValue::Object(fields) => {
                            let nc = chars_of(name.as_str());
                            match crate::json::obj_get(&fields, nc.as_slice()) {
                                Some(v) => {
                                    let txt = crate::json::arg_text(v);
                                    let ts = string_of(txt.as_slice());
                                    compare_values_impl(ts.as_str(), value.as_str(), *operator)
                                },
                                None => false,
                            }
                        },
                        _ => false,
                    },
                    None => false,
                },
            },
        }
    }

    /// The registered breakpoints, in table order.
    pub fn list(&self) -> (r: Vec<Breakpoint>)
        requires
            self.wf(),
        ensures
            r@.len() == self.breakpoints.entries@.len(),
            forall|i: int|
                0 <= i < r@.len() ==> #[trigger] r@[i]@ == self.breakpoints.entries@[i].1@,
            forall|i: int|
                0 <= i < r@.len() ==> self.view().contains_key(#[trigger] r@[i]@.function)
                    && self.view()[r@[i]@.function] == r@[i]@,
    {
        let mut r: Vec<Breakpoint> = Vec::new();
        let mut i: usize = 0;
        while i < self.breakpoints.entries.len()
            invariant
                self.wf(),
                i <= self.breakpoints.entries@.len(),
                r@.len() == i,
                forall|j: int|
                    0 <= j < i ==> #[trigger] r@[j]@ == self.breakpoints.entries@[j].1@,
            decreases self.breakpoints.entries@.len() - i,
        {
            r.push(self.breakpoints.entries[i].1.clone());
            i += 1;
        }
        proof {
            assert forall|i: int|
                0 <= i < r@.len() implies self.view().contains_key(#[trigger] r@[i]@.function)
                && self.view()[r@[i]@.function] == r@[i]@ by {
                crate::kv::lemma_entries_index(self.breakpoints.entries@, i);
            }
        }
        r
    }

    /// Drop every breakpoint.
    pub fn clear(&mut self)
        ensures
            final(self).wf(),
            final(self).view() =~= Map::<Seq<char>, BreakpointView>::empty(),
    {
        self.breakpoints.clear();
    }

    /// No breakpoint is set.
    pub fn is_empty(&self) -> (r: bool)
        requires
            self.wf(),
        ensures
            r <==> self.view() =~= Map::<Seq<char>, BreakpointView>::empty(),
    {
        self.breakpoints.len() == 0
    }

    /// The number of breakpoints set.
    pub fn count(&self) -> (r: usize)
        requires
            self.wf(),
        ensures
            r == self.breakpoints.entries@.len(),
            r == 0 <==> self.view() =~= Map::<Seq<char>, BreakpointView>::empty(),
    {
        self.breakpoints.len()
    }

    /// Parse a condition string: `storage[key] OP value` gives a storage
    /// predicate, otherwise the first operator found splits an argument
    /// predicate; with no operator the string is rejected.
    pub fn parse_condition(s: &str) -> (r: Result<Condition, String>)
        ensures
            match r {
                Ok(c) => parse_condition_spec(s@) == Some(c@),
                Err(e) => parse_condition_spec(s@) is None && e@ == parse_cond_err_spec(s@),
            },
    {
        let cs = chars_of(s);
        let mut sp: Vec<char> = Vec::new();
        sp.push('s');
        sp.push('t');
        sp.push('o');
        sp.push('r');
        sp.push('a');
        sp.push('g');
        sp.push('e');
        sp.push('[');
        proof {
            assert(sp@ =~= storage_prefix());
        }
        if starts_with(cs.as_slice(), sp.as_slice()) {
            let mut br: Vec<char> = Vec::new();
            br.push(']');
            proof {
                assert(br@ =~= seq![']']);
            }
            match find_sub(cs.as_slice(), br.as_slice()) {
                None => Err("Missing closed bracket ']' in storage condition".to_owned()),
                Some(eb) => {
                    proof {
                        crate::strutil::lemma_find_sub_props(s@, seq![']']);
                        assert(s@.subrange(eb as int, eb + 1) == seq![']']);
                        assert(s@.subrange(eb as int, eb + 1)[0] == s@[eb as int]);
                        assert(s@[eb as int] == ']');
                        if eb < 8 {
                            assert(s@.subrange(0, 8)[eb as int] == s@[eb as int]);
                            assert(storage_prefix()[eb as int] != ']');
                        }
                        assert(eb >= 8);
                    }
                    let key = vstd::slice::slice_subrange(cs.as_slice(), 8, eb);
                    proof {
                        assert(key@ =~= s@.subrange(8, eb as int));
                    }
                    let n = cs.len();
                    proof {
                        assert(eb + 1 <= n);
                    }
                    let rest = vstd::slice::slice_subrange(cs.as_slice(), eb + 1, n);
                    proof {
                        assert(rest@ =~= s@.skip(eb + 1));
                    }
                    let rem = trim(rest);
                    let rem_s = string_of(rem.as_slice());
                    match split_op_value(rem_s.as_str()) {
                        Ok((operator, value)) => Ok(
                            Condition::Storage { key: string_of(key), operator, value },
                        ),
                        Err(e) => Err(e),
                    }
                },
            }
        } else {
            match find_op(s) {
                None => Err("No operator found (use ==, !=, >, <, >=, <=)".to_owned()),
                Some((operator, pos)) => {
                    proof {
                        crate::strutil::lemma_find_sub_props(s@, op_text(operator));
                        assert(find_sub_spec(s@, op_text(operator)) == Some(pos as int));
                    }
                    let w = op_width(operator);
                    let nlen = cs.len();
                    proof {
                        assert(pos + w <= nlen);
                    }
                    let name_part = vstd::slice::slice_subrange(cs.as_slice(), 0, pos);
                    proof {
                        assert(name_part@ =~= s@.subrange(0, pos as int));
                    }
                    let value_part = vstd::slice::slice_subrange(
                        cs.as_slice(),
                        pos + w,
                        nlen,
                    );
                    proof {
                        assert(value_part@ =~= s@.skip(pos + op_text(operator).len()));
                    }
                    let name = trim(name_part);
                    let value = trim(value_part);
                    Ok(
                        Condition::Argument {
                            name: string_of(name.as_slice()),
                            operator,
                            value: string_of(value.as_slice()),
                        },
                    )
                },
            }
        }
    }
}


impl Default for BreakpointManager {
    /// An empty table.
    fn default() -> (r: Self)
        ensures
            r.wf(),
            r.view() =~= Map::<Seq<char>, BreakpointView>::empty(),
    {
        BreakpointManager::new()
    }
}

/// Trimming never lengthens, and changes nothing exactly when no space
/// borders the text.
proof fn lemma_trim_start_len(s: Seq<char>)
    ensures
        trim_start_spec(s).len() <= s.len(),
        (trim_start_spec(s) == s) <==> (s.len() == 0 || !crate::strutil::is_space(s[0])),
        (s.len() > 0 && crate::strutil::is_space(s[0])) ==> trim_start_spec(s).len() < s.len(),
    decreases s.len(),
{
    if s.len() > 0 && crate::strutil::is_space(s[0]) {
        lemma_trim_start_len(s.drop_first());
    }
}

/// Trimming the end never lengthens, and changes nothing exactly when the
/// text does not end in a space.
proof fn lemma_trim_end_len(s: Seq<char>)
    ensures
        trim_end_spec(s).len() <= s.len(),
        (trim_end_spec(s) == s) <==> (s.len() == 0 || !crate::strutil::is_space(s.last())),
        (s.len() > 0 && crate::strutil::is_space(s.last())) ==> trim_end_spec(s).len()
            < s.len(),
    decreases s.len(),
{
    if s.len() > 0 && crate::strutil::is_space(s.last()) {
        lemma_trim_end_len(s.drop_last());
    }
}

/// A trim-invariant text has no space at either border, and both partial
/// trims leave it unchanged.
proof fn lemma_trim_invariant(s: Seq<char>)
    requires
        trim_spec(s) == s,
    ensures
        trim_start_spec(s) == s,
        trim_end_spec(s) == s,
        s.len() == 0 || (!crate::strutil::is_space(s[0]) && !crate::strutil::is_space(
            s.last(),
        )),
{
    lemma_trim_start_len(s);
    lemma_trim_end_len(trim_start_spec(s));
    if trim_start_spec(s).len() < s.len() {
        assert(trim_spec(s).len() < s.len());
    }
    assert(trim_start_spec(s) == s);
    lemma_trim_end_len(s);
}

/// Trimming a single leading space skips it.
proof fn lemma_trim_space_prefix(v: Seq<char>)
    requires
        trim_spec(v) == v,
    ensures
        trim_spec(seq![' '] + v) == v,
{
    lemma_trim_invariant(v);
    let x = seq![' '] + v;
    assert(x[0] == ' ');
    assert(x.drop_first() =~= v);
    assert(trim_start_spec(x) == trim_start_spec(v));
    assert(trim_start_spec(v) == v);
    assert(trim_end_spec(v) == v);
}

/// Trimming a name with one trailing space gives the name back.
proof fn lemma_trim_space_suffix(v: Seq<char>)
    requires
        trim_spec(v) == v,
    ensures
        trim_spec(v + seq![' ']) == v,
{
    lemma_trim_invariant(v);
    let x = v + seq![' '];
    if v.len() == 0 {
        assert(x =~= seq![' ']);
        assert(x.drop_first() =~= Seq::<char>::empty());
        assert(x.len() == 1 && x[0] == ' ');
        assert(trim_start_spec(x) == trim_start_spec(x.drop_first()));
        assert(trim_start_spec(x.drop_first()) =~= Seq::<char>::empty());
        assert(trim_end_spec(trim_start_spec(x)) =~= Seq::<char>::empty());
    } else {
        assert(x[0] == v[0]);
        assert(!crate::strutil::is_space(x[0]));
        assert(trim_start_spec(x) == x);
        assert(x.last() == ' ');
        assert(x.drop_last() =~= v);
        assert(trim_end_spec(x) == trim_end_spec(v));
    }
}

/// A character the operator search could mistake for operator text.
pub open spec fn is_op_char(c: char) -> bool {
    c == '<' || c == '>' || c == '=' || c == '!'
}

/// No character of `s` looks like operator text.
pub open spec fn op_free(s: Seq<char>) -> bool {
    forall|i: int| 0 <= i < s.len() ==> !is_op_char(#[trigger] s[i])
}

/// A condition whose rendering parses back: a storage key holds no closing
/// bracket and the value carries no bordering whitespace; an argument name
/// and value are trim-invariant, free of operator characters, and the name
/// does not dress the text up as a storage condition.
pub open spec fn cond_clean(c: ConditionView) -> bool {
    match c {
        ConditionView::Storage { key, operator, value } => (forall|i: int|
            0 <= i < key.len() ==> #[trigger] key[i] != ']') && trim_spec(value) == value,
        ConditionView::Argument { name, operator, value } => op_free(name) && op_free(value)
            && trim_spec(name) == name && trim_spec(value) == value && !starts_with_spec(
            cond_text(c),
            storage_prefix(),
        ),
    }
}

/// Where each character of a rendered argument condition comes from.
proof fn lemma_argument_chars(name: Seq<char>, op: Operator, value: Seq<char>)
    ensures
        ({
            let s = name + seq![' '] + op_text(op) + seq![' '] + value;
            let n = name.len() as int;
            let w = op_text(op).len() as int;
            &&& s.len() == n + w + 2 + value.len()
            &&& forall|j: int| 0 <= j < n ==> #[trigger] s[j] == name[j]
            &&& s[n] == ' '
            &&& forall|k: int| 0 <= k < w ==> #[trigger] s[n + 1 + k] == op_text(op)[k]
            &&& s[n + 1 + w] == ' '
            &&& forall|j: int|
                n + 2 + w <= j < s.len() ==> #[trigger] s[j] == value[j - (n + 2 + w)]
        }),
{
    let s = name + seq![' '] + op_text(op) + seq![' '] + value;
    let n = name.len() as int;
    let w = op_text(op).len() as int;
    assert forall|j: int| 0 <= j < n implies #[trigger] s[j] == name[j] by {
        assert(s[j] == ((name + seq![' ']) + op_text(op) + seq![' '])[j]);
    }
    assert forall|k: int| 0 <= k < w implies #[trigger] s[n + 1 + k] == op_text(op)[k] by {
        assert(((name + seq![' ']) + op_text(op))[n + 1 + k] == op_text(op)[k]);
    }
}

/// In a rendered argument condition with clean name and value, operator
/// characters stand only inside the operator's own text.
proof fn lemma_argument_specials(name: Seq<char>, op: Operator, value: Seq<char>)
    requires
        op_free(name),
        op_free(value),
    ensures
        ({
            let s = name + seq![' '] + op_text(op) + seq![' '] + value;
            let n = name.len() as int;
            let w = op_text(op).len() as int;
            forall|j: int|
                0 <= j < s.len() && is_op_char(#[trigger] s[j]) ==> n + 1 <= j < n + 1 + w
        }),
{
    let s = name + seq![' '] + op_text(op) + seq![' '] + value;
    let n = name.len() as int;
    let w = op_text(op).len() as int;
    lemma_argument_chars(name, op, value);
    assert forall|j: int| 0 <= j < s.len() && is_op_char(#[trigger] s[j]) implies n + 1 <= j
        < n + 1 + w by {
        if j < n {
            assert(s[j] == name[j]);
        } else if j == n {
        } else if j == n + 1 + w {
        } else if j > n + 1 + w {
            assert(s[j] == value[j - (n + 2 + w)]);
        }
    }
}

/// A two-character pattern absent everywhere is not found.
proof fn lemma_no_match2(s: Seq<char>, a: char, b: char)
    requires
        forall|j: int| 0 <= j && j + 2 <= s.len() ==> !(#[trigger] s[j] == a && s[j + 1] == b),
    ensures
        find_sub_spec(s, seq![a, b]) is None,
{
    crate::strutil::lemma_find_sub_props(s, seq![a, b]);
    match find_sub_spec(s, seq![a, b]) {
        Some(i) => {
            assert(s.subrange(i, i + 2) == seq![a, b]);
            assert(s.subrange(i, i + 2)[0] == s[i]);
            assert(s.subrange(i, i + 2)[1] == s[i + 1]);
            assert(false);
        },
        None => {
        },
    }
}

/// A one-character pattern absent everywhere is not found.
proof fn lemma_no_match1(s: Seq<char>, a: char)
    requires
        forall|j: int| 0 <= j < s.len() ==> #[trigger] s[j] != a,
    ensures
        find_sub_spec(s, seq![a]) is None,
{
    crate::strutil::lemma_find_sub_props(s, seq![a]);
    match find_sub_spec(s, seq![a]) {
        Some(i) => {
            assert(s.subrange(i, i + 1) == seq![a]);
            assert(s.subrange(i, i + 1)[0] == s[i]);
            assert(false);
        },
        None => {
        },
    }
}

/// A two-character pattern matching at `pos` and nowhere earlier is found
/// exactly there.
proof fn lemma_first_match2(s: Seq<char>, a: char, b: char, pos: int)
    requires
        0 <= pos,
        pos + 2 <= s.len(),
        s[pos] == a,
        s[pos + 1] == b,
        forall|j: int| 0 <= j < pos ==> !(#[trigger] s[j] == a && s[j + 1] == b),
    ensures
        find_sub_spec(s, seq![a, b]) == Some(pos),
{
    crate::strutil::lemma_find_sub_props(s, seq![a, b]);
    assert(s.subrange(pos, pos + 2) =~= seq![a, b]);
    match find_sub_spec(s, seq![a, b]) {
        Some(i) => {
            assert(s.subrange(i, i + 2) == seq![a, b]);
            assert(s.subrange(i, i + 2)[0] == s[i]);
            assert(s.subrange(i, i + 2)[1] == s[i + 1]);
            if i < pos {
                assert(false);
            }
            if i > pos {
                assert(s.subrange(pos, pos + 2) != seq![a, b]);
                assert(false);
            }
        },
        None => {
            assert(s.subrange(pos, pos + 2) != seq![a, b]);
            assert(false);
        },
    }
}

/// A one-character pattern matching at `pos` and nowhere earlier is found
/// exactly there.
proof fn lemma_first_match1(s: Seq<char>, a: char, pos: int)
    requires
        0 <= pos,
        pos + 1 <= s.len(),
        s[pos] == a,
        forall|j: int| 0 <= j < pos ==> #[trigger] s[j] != a,
    ensures
        find_sub_spec(s, seq![a]) == Some(pos),
{
    crate::strutil::lemma_find_sub_props(s, seq![a]);
    assert(s.subrange(pos, pos + 1) =~= seq![a]);
    match find_sub_spec(s, seq![a]) {
        Some(i) => {
            assert(s.subrange(i, i + 1) == seq![a]);
            assert(s.subrange(i, i + 1)[0] == s[i]);
            if i < pos {
                assert(false);
            }
            if i > pos {
                assert(s.subrange(pos, pos + 1) != seq![a]);
                assert(false);
            }
        },
        None => {
            assert(s.subrange(pos, pos + 1) != seq![a]);
            assert(false);
        },
    }
}

/// The operator search on a clean rendered argument condition finds exactly
/// the rendered operator, at the position after the name.
proof fn lemma_argument_find(name: Seq<char>, op: Operator, value: Seq<char>)
    requires
        op_free(name),
        op_free(value),
    ensures
        find_op_spec(name + seq![' '] + op_text(op) + seq![' '] + value) == Some(
            (op, name.len() as int + 1),
        ),
{
    let s = name + seq![' '] + op_text(op) + seq![' '] + value;
    let n = name.len() as int;
    let w = op_text(op).len() as int;
    lemma_argument_chars(name, op, value);
    lemma_argument_specials(name, op, value);
    assert(op_text(Operator::Ge) =~= seq!['>', '=']);
    assert(op_text(Operator::Le) =~= seq!['<', '=']);
    assert(op_text(Operator::Eq) =~= seq!['=', '=']);
    assert(op_text(Operator::Ne) =~= seq!['!', '=']);
    assert(op_text(Operator::Gt) =~= seq!['>']);
    assert(op_text(Operator::Lt) =~= seq!['<']);
    match op {
        Operator::Ge => {
            assert(s[n + 1] == '>' && s[n + 2] == '=');
            assert forall|j: int| 0 <= j < n + 1 implies !(#[trigger] s[j] == '>' && s[j + 1]
                == '=') by {
                if s[j] == '>' {
                    assert(is_op_char(s[j]));
                }
            }
            lemma_first_match2(s, '>', '=', n + 1);
        },
        Operator::Le => {
            assert forall|j: int| 0 <= j && j + 2 <= s.len() implies !(#[trigger] s[j] == '>'
                && s[j + 1] == '=') by {
                if s[j] == '>' {
                    assert(n + 1 <= j < n + 3);
                    assert(s[n + 1] == '<' && s[n + 2] == '=');
                }
            }
            lemma_no_match2(s, '>', '=');
            assert(s[n + 1] == '<' && s[n + 2] == '=');
            assert forall|j: int| 0 <= j < n + 1 implies !(#[trigger] s[j] == '<' && s[j + 1]
                == '=') by {
                if s[j] == '<' {
                    assert(is_op_char(s[j]));
                }
            }
            lemma_first_match2(s, '<', '=', n + 1);
        },
        Operator::Eq => {
            assert(s[n + 1] == '=' && s[n + 2] == '=');
            assert forall|j: int| 0 <= j && j + 2 <= s.len() implies !(#[trigger] s[j] == '>'
                && s[j + 1] == '=') by {
                if s[j] == '>' {
                    assert(n + 1 <= j < n + 3);
                }
            }
            lemma_no_match2(s, '>', '=');
            assert forall|j: int| 0 <= j && j + 2 <= s.len() implies !(#[trigger] s[j] == '<'
                && s[j + 1] == '=') by {
                if s[j] == '<' {
                    assert(n + 1 <= j < n + 3);
                }
            }
            lemma_no_match2(s, '<', '=');
            assert forall|j: int| 0 <= j < n + 1 implies !(#[trigger] s[j] == '=' && s[j + 1]
                == '=') by {
                if s[j] == '=' {
                    assert(is_op_char(s[j]));
                }
            }
            lemma_first_match2(s, '=', '=', n + 1);
        },
        Operator::Ne => {
            assert(s[n + 1] == '!' && s[n + 2] == '=');
            assert forall|j: int| 0 <= j && j + 2 <= s.len() implies !(#[trigger] s[j] == '>'
                && s[j + 1] == '=') by {
                if s[j] == '>' {
                    assert(n + 1 <= j < n + 3);
                }
            }
            lemma_no_match2(s, '>', '=');
            assert forall|j: int| 0 <= j && j + 2 <= s.len() implies !(#[trigger] s[j] == '<'
                && s[j + 1] == '=') by {
                if s[j] == '<' {
                    assert(n + 1 <= j < n + 3);
                }
            }
            lemma_no_match2(s, '<', '=');
            assert forall|j: int| 0 <= j && j + 2 <= s.len() implies !(#[trigger] s[j] == '='
                && s[j + 1] == '=') by {
                if s[j] == '=' && s[j + 1] == '=' {
                    assert(n + 1 <= j < n + 3 && n + 1 <= j + 1 < n + 3);
                    assert(j == n + 1 || j == n + 2);
                    assert(s[n + 1] == '!');
                    assert(j == n + 2);
                    assert(s[n + 3] == ' ');
                }
            }
            lemma_no_match2(s, '=', '=');
            assert forall|j: int| 0 <= j < n + 1 implies !(#[trigger] s[j] == '!' && s[j + 1]
                == '=') by {
                if s[j] == '!' {
                    assert(is_op_char(s[j]));
                }
            }
            lemma_first_match2(s, '!', '=', n + 1);
        },
        Operator::Gt => {
            assert(s[n + 1] == '>');
            assert(s[n + 2] == ' ');
            assert forall|j: int| 0 <= j && j + 2 <= s.len() implies !(#[trigger] s[j] == '>'
                && s[j + 1] == '=') by {
                if s[j] == '>' {
                    assert(j == n + 1);
                    assert(s[j + 1] == ' ');
                }
            }
            lemma_no_match2(s, '>', '=');
            assert forall|j: int| 0 <= j && j + 2 <= s.len() implies !(#[trigger] s[j] == '<'
                && s[j + 1] == '=') by {
                if s[j] == '<' {
                    assert(n + 1 <= j < n + 2);
                    assert(s[n + 1] == '>');
                }
            }
            lemma_no_match2(s, '<', '=');
            assert forall|j: int| 0 <= j && j + 2 <= s.len() implies !(#[trigger] s[j] == '='
                && s[j + 1] == '=') by {
                if s[j] == '=' {
                    assert(n + 1 <= j < n + 2);
                    assert(s[n + 1] == '>');
                }
            }
            lemma_no_match2(s, '=', '=');
            assert forall|j: int| 0 <= j && j + 2 <= s.len() implies !(#[trigger] s[j] == '!'
                && s[j + 1] == '=') by {
                if s[j] == '!' {
                    assert(n + 1 <= j < n + 2);
                    assert(s[n + 1] == '>');
                }
            }
            lemma_no_match2(s, '!', '=');
            assert forall|j: int| 0 <= j < n + 1 implies #[trigger] s[j] != '>' by {
                if s[j] == '>' {
                    assert(is_op_char(s[j]));
                }
            }
            lemma_first_match1(s, '>', n + 1);
        },
        Operator::Lt => {
            assert(s[n + 1] == '<');
            assert(s[n + 2] == ' ');
            assert forall|j: int| 0 <= j && j + 2 <= s.len() implies !(#[trigger] s[j] == '>'
                && s[j + 1] == '=') by {
                if s[j] == '>' {
                    assert(n + 1 <= j < n + 2);
                    assert(s[n + 1] == '<');
                }
            }
            lemma_no_match2(s, '>', '=');
            assert forall|j: int| 0 <= j && j + 2 <= s.len() implies !(#[trigger] s[j] == '<'
                && s[j + 1] == '=') by {
                if s[j] == '<' {
                    assert(j == n + 1);
                    assert(s[j + 1] == ' ');
                }
            }
            lemma_no_match2(s, '<', '=');
            assert forall|j: int| 0 <= j && j + 2 <= s.len() implies !(#[trigger] s[j] == '='
                && s[j + 1] == '=') by {
                if s[j] == '=' {
                    assert(n + 1 <= j < n + 2);
                    assert(s[n + 1] == '<');
                }
            }
            lemma_no_match2(s, '=', '=');
            assert forall|j: int| 0 <= j && j + 2 <= s.len() implies !(#[trigger] s[j] == '!'
                && s[j + 1] == '=') by {
                if s[j] == '!' {
                    assert(n + 1 <= j < n + 2);
                    assert(s[n + 1] == '<');
                }
            }
            lemma_no_match2(s, '!', '=');
            assert forall|j: int| 0 <= j < s.len() implies #[trigger] s[j] != '>' by {
                if s[j] == '>' {
                    assert(n + 1 <= j < n + 2);
                    assert(s[n + 1] == '<');
                }
            }
            lemma_no_match1(s, '>');
            assert forall|j: int| 0 <= j < n + 1 implies #[trigger] s[j] != '<' by {
                if s[j] == '<' {
                    assert(is_op_char(s[j]));
                }
            }
            lemma_first_match1(s, '<', n + 1);
        },
    }
}

/// Trimming the text after the operator gap: the space is dropped in front,
/// and behind only when no value follows.
proof fn lemma_trim_mid(op: Operator, value: Seq<char>)
    requires
        trim_spec(value) == value,
    ensures
        trim_spec(seq![' '] + op_text(op) + seq![' '] + value) == (if value.len() > 0 {
            op_text(op) + seq![' '] + value
        } else {
            op_text(op)
        }),
{
    lemma_trim_invariant(value);
    let x = op_text(op) + seq![' '] + value;
    let y = seq![' '] + x;
    assert(y =~= seq![' '] + op_text(op) + seq![' '] + value);
    assert(y[0] == ' ');
    assert(y.drop_first() =~= x);
    assert(trim_start_spec(y) == trim_start_spec(x));
    assert(x[0] == op_text(op)[0]);
    assert(!crate::strutil::is_space(x[0]));
    assert(trim_start_spec(x) == x);
    if value.len() > 0 {
        assert(x.last() == value.last());
        assert(!crate::strutil::is_space(x.last()));
        assert(trim_end_spec(x) == x);
    } else {
        assert(x =~= op_text(op) + seq![' ']);
        assert(x.last() == ' ');
        assert(x.drop_last() =~= op_text(op));
        assert(trim_end_spec(x) == trim_end_spec(op_text(op)));
        assert(op_text(op).last() != ' ');
        assert(!crate::strutil::is_space(op_text(op).last()));
        lemma_trim_end_len(op_text(op));
    }
}

/// How the remainder of a rendered condition splits: on its own operator.
proof fn lemma_split_rem(op: Operator, value: Seq<char>)
    requires
        trim_spec(value) == value,
    ensures
        split_op_spec(
            if value.len() > 0 {
                op_text(op) + seq![' '] + value
            } else {
                op_text(op)
            },
        ) == Some((op, value)),
{
    let rem = if value.len() > 0 {
        op_text(op) + seq![' '] + value
    } else {
        op_text(op)
    };
    lemma_starts2(rem, '=', '=');
    lemma_starts2(rem, '!', '=');
    lemma_starts2(rem, '>', '=');
    lemma_starts2(rem, '<', '=');
    lemma_starts1(rem, '>');
    lemma_starts1(rem, '<');
    let w = op_text(op).len() as int;
    assert(rem[0] == op_text(op)[0]);
    if w == 2 {
        assert(rem[1] == op_text(op)[1]);
    } else if value.len() > 0 {
        assert(rem[1] == ' ');
    }
    assert(op_text(Operator::Ge) =~= seq!['>', '=']);
    assert(op_text(Operator::Le) =~= seq!['<', '=']);
    assert(op_text(Operator::Eq) =~= seq!['=', '=']);
    assert(op_text(Operator::Ne) =~= seq!['!', '=']);
    assert(op_text(Operator::Gt) =~= seq!['>']);
    assert(op_text(Operator::Lt) =~= seq!['<']);
    if value.len() > 0 {
        assert(rem.skip(w) =~= seq![' '] + value);
        lemma_trim_space_prefix(value);
    } else {
        assert(rem.skip(w) =~= Seq::<char>::empty());
        assert(trim_spec(rem.skip(w)) =~= Seq::<char>::empty());
    }
}

/// Law: a clean condition's source text parses back to the same condition.
/// Rendering and parsing are mutually inverse on conditions whose key holds
/// no closing bracket, whose name and value carry no operator characters or
/// bordering whitespace, and whose text does not open like a storage
/// condition unless it is one.
pub proof fn lemma_condition_roundtrip(c: ConditionView)
    requires
        cond_clean(c),
    ensures
        parse_condition_spec(cond_text(c)) == Some(c),
{
    match c {
        ConditionView::Argument { name, operator, value } => {
            let s = cond_text(c);
            let n = name.len() as int;
            let w = op_text(operator).len() as int;
            assert(s == name + seq![' '] + op_text(operator) + seq![' '] + value);
            lemma_argument_find(name, operator, value);
            lemma_argument_chars(name, operator, value);
            assert(!starts_with_spec(s, storage_prefix()));
            assert(find_op_spec(s) == Some((operator, n + 1)));
            assert(s.subrange(0, n + 1) =~= name + seq![' ']);
            lemma_trim_space_suffix(name);
            assert(s.skip(n + 1 + w) =~= seq![' '] + value);
            lemma_trim_space_prefix(value);
        },
        ConditionView::Storage { key, operator, value } => {
            let s = cond_text(c);
            let k = key.len() as int;
            assert(s =~= storage_prefix() + key + seq![']', ' '] + op_text(operator) + seq![
                ' ',
            ] + value);
            assert(s.subrange(0, 8) =~= storage_prefix());
            assert(starts_with_spec(s, storage_prefix()));
            assert forall|j: int| 0 <= j < 8 + k implies #[trigger] s[j] != ']' by {
                if j < 8 {
                    assert(s[j] == storage_prefix()[j]);
                } else {
                    assert(s[j] == ((storage_prefix() + key) + seq![']', ' '] + op_text(
                        operator,
                    ) + seq![' '] + value)[j]);
                    assert(s[j] == key[j - 8]);
                }
            }
            assert(s[8 + k] == ']') by {
                assert(((storage_prefix() + key) + seq![']', ' '])[8 + k] == ']');
            }
            lemma_first_match1(s, ']', 8 + k);
            assert(find_sub_spec(s, seq![']']) == Some(8 + k));
            assert(s.subrange(8, 8 + k) =~= key);
            assert(s.skip(8 + k + 1) =~= seq![' '] + op_text(operator) + seq![' '] + value);
            lemma_trim_mid(operator, value);
            lemma_split_rem(operator, value);
        },
    }
}

} // verus!
