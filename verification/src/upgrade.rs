//! Upgrade compatibility: signatures extracted from two contract binaries are
//! diffed structurally into breaking and non-breaking change sets.

use vstd::prelude::*;

use crate::kv::clone_string;
use crate::strutil::chars_eq;
use crate::strutil::chars_of;
use crate::strutil::string_of;

verus! {

/// A guest-bytecode value type.
#[derive(Debug, Clone, Copy, PartialEq, Eq, Structural)]
pub enum WasmType {
    I32,
    I64,
    F32,
    F64,
    V128,
    FuncRef,
    ExternRef,
    Unknown,
}

/// The lowercase display text of a value type; `?` for an unknown tag.
pub open spec fn wasm_type_text(t: WasmType) -> Seq<char> {
    match t {
        WasmType::I32 => seq!['i', '3', '2'],
        WasmType::I64 => seq!['i', '6', '4'],
        WasmType::F32 => seq!['f', '3', '2'],
        WasmType::F64 => seq!['f', '6', '4'],
        WasmType::V128 => seq!['v', '1', '2', '8'],
        WasmType::FuncRef => seq!['f', 'u', 'n', 'c', 'r', 'e', 'f'],
        WasmType::ExternRef => seq!['e', 'x', 't', 'e', 'r', 'n', 'r', 'e', 'f'],
        WasmType::Unknown => seq!['?'],
    }
}

impl WasmType {
    /// The type's display text.
    pub fn render(&self) -> (r: String)
        ensures
            r@ == wasm_type_text(*self),
    {
        let mut cs: Vec<char> = Vec::new();
        match self {
            WasmType::I32 => {
                cs.push('i');
                cs.push('3');
                cs.push('2');
            },
            WasmType::I64 => {
                cs.push('i');
                cs.push('6');
                cs.push('4');
            },
            WasmType::F32 => {
                cs.push('f');
                cs.push('3');
                cs.push('2');
            },
            WasmType::F64 => {
                cs.push('f');
                cs.push('6');
                cs.push('4');
            },
            WasmType::V128 => {
                cs.push('v');
                cs.push('1');
                cs.push('2');
                cs.push('8');
            },
            WasmType::FuncRef => {
                cs.push('f');
                cs.push('u');
                cs.push('n');
                cs.push('c');
                cs.push('r');
                cs.push('e');
                cs.push('f');
            },
            WasmType::ExternRef => {
                cs.push('e');
                cs.push('x');
                cs.push('t');
                cs.push('e');
                cs.push('r');
                cs.push('n');
                cs.push('r');
                cs.push('e');
                cs.push('f');
            },
            WasmType::Unknown => {
                cs.push('?');
            },
        }
        proof {
            assert(cs@ =~= wasm_type_text(*self));
        }
        string_of(cs.as_slice())
    }
}

/// A function signature extracted from a contract binary.
#[derive(Debug, PartialEq, Eq)]
pub struct FunctionSignature {
    pub name: String,
    pub params: Vec<WasmType>,
    pub results: Vec<WasmType>,
}

/// The mathematical form of a signature.
pub struct SignatureView {
    pub name: Seq<char>,
    pub params: Seq<WasmType>,
    pub results: Seq<WasmType>,
}

impl View for FunctionSignature {
    type V = SignatureView;

    open spec fn view(&self) -> SignatureView {
        SignatureView { name: self.name@, params: self.params@, results: self.results@ }
    }
}

impl Clone for FunctionSignature {
    /// A deep copy with the same view.
    fn clone(&self) -> (r: Self)
        ensures
            r@ == self@,
    {
        let mut params: Vec<WasmType> = Vec::new();
        let mut i: usize = 0;
        while i < self.params.len()
            invariant
                i <= self.params@.len(),
                params@ == self.params@.subrange(0, i as int),
            decreases self.params@.len() - i,
        {
            params.push(self.params[i]);
            proof {
                assert(params@ =~= self.params@.subrange(0, i + 1));
            }
            i += 1;
        }
        let mut results: Vec<WasmType> = Vec::new();
        let mut j: usize = 0;
        while j < self.results.len()
            invariant
                j <= self.results@.len(),
                results@ == self.results@.subrange(0, j as int),
            decreases self.results@.len() - j,
        {
            results.push(self.results[j]);
            proof {
                assert(results@ =~= self.results@.subrange(0, j + 1));
            }
            j += 1;
        }
        proof {
            assert(params@ =~= self.params@);
            assert(results@ =~= self.results@);
        }
        FunctionSignature { name: clone_string(&self.name), params, results }
    }
}

/// A breaking change between two versions of a binary.
#[derive(Debug, PartialEq, Eq)]
pub enum BreakingChange {
    FunctionRemoved { name: String },
    ParameterCountChanged { name: String, old_count: usize, new_count: usize },
    ParameterTypeChanged { name: String, index: usize, old_type: WasmType, new_type: WasmType },
    ReturnTypeChanged { name: String, old_types: Vec<WasmType>, new_types: Vec<WasmType> },
}

/// The mathematical form of a breaking change.
pub enum BreakingChangeView {
    FunctionRemoved { name: Seq<char> },
    ParameterCountChanged { name: Seq<char>, old_count: int, new_count: int },
    ParameterTypeChanged { name: Seq<char>, index: int, old_type: WasmType, new_type: WasmType },
    ReturnTypeChanged { name: Seq<char>, old_types: Seq<WasmType>, new_types: Seq<WasmType> },
}

impl View for BreakingChange {
    type V = BreakingChangeView;

    open spec fn view(&self) -> BreakingChangeView {
        match self {
            BreakingChange::FunctionRemoved { name } => BreakingChangeView::FunctionRemoved {
                name: name@,
            },
            BreakingChange::ParameterCountChanged { name, old_count, new_count } => {
                BreakingChangeView::ParameterCountChanged {
                    name: name@,
                    old_count: *old_count as int,
                    new_count: *new_count as int,
                }
            },
            BreakingChange::ParameterTypeChanged { name, index, old_type, new_type } => {
                BreakingChangeView::ParameterTypeChanged {
                    name: name@,
                    index: *index as int,
                    old_type: *old_type,
                    new_type: *new_type,
                }
            },
            BreakingChange::ReturnTypeChanged { name, old_types, new_types } => {
                BreakingChangeView::ReturnTypeChanged {
                    name: name@,
                    old_types: old_types@,
                    new_types: new_types@,
                }
            },
        }
    }
}

/// A non-breaking change between two versions of a binary.
#[derive(Debug, PartialEq, Eq)]
pub enum NonBreakingChange {
    FunctionAdded { name: String },
}

/// The mathematical form of a non-breaking change.
pub enum NonBreakingChangeView {
    FunctionAdded { name: Seq<char> },
}

impl View for NonBreakingChange {
    type V = NonBreakingChangeView;

    open spec fn view(&self) -> NonBreakingChangeView {
        match self {
            NonBreakingChange::FunctionAdded { name } => NonBreakingChangeView::FunctionAdded {
                name: name@,
            },
        }
    }
}

/// The views of a signature list.
pub open spec fn sig_views(s: Seq<FunctionSignature>) -> Seq<SignatureView> {
    s.map_values(|x: FunctionSignature| x@)
}

/// Some signature in `s` bears `name`.
pub open spec fn contains_name(s: Seq<SignatureView>, name: Seq<char>) -> bool {
    exists|i: int| 0 <= i < s.len() && s[i].name == name
}

/// The signature under `name`, the last one winning, as a name-indexed table
/// built front to back would have it.
pub open spec fn sig_lookup(s: Seq<SignatureView>, name: Seq<char>) -> Option<SignatureView>
    decreases s.len(),
{
    if s.len() == 0 {
        None
    } else if s.last().name == name {
        Some(s.last())
    } else {
        sig_lookup(s.drop_last(), name)
    }
}

/// The per-parameter type changes between two equally long parameter lists.
pub open spec fn param_changes(
    name: Seq<char>,
    op: Seq<WasmType>,
    np: Seq<WasmType>,
) -> Seq<BreakingChangeView>
    decreases op.len(),
{
    if op.len() == 0 || op.len() != np.len() {
        Seq::empty()
    } else {
        param_changes(name, op.drop_last(), np.drop_last()) + if op.last() != np.last() {
            seq![
                BreakingChangeView::ParameterTypeChanged {
                    name,
                    index: op.len() - 1,
                    old_type: op.last(),
                    new_type: np.last(),
                },
            ]
        } else {
            Seq::empty()
        }
    }
}

/// The breaking changes one old signature contributes, given what the new
/// binary holds under its name.
pub open spec fn sig_changes(o: SignatureView, n_opt: Option<SignatureView>) -> Seq<
    BreakingChangeView,
> {
    match n_opt {
        None => seq![BreakingChangeView::FunctionRemoved { name: o.name }],
        Some(n) => (if o.params.len() != n.params.len() {
            seq![
                BreakingChangeView::ParameterCountChanged {
                    name: o.name,
                    old_count: o.params.len() as int,
                    new_count: n.params.len() as int,
                },
            ]
        } else {
            param_changes(o.name, o.params, n.params)
        }) + if o.results != n.results {
            seq![
                BreakingChangeView::ReturnTypeChanged {
                    name: o.name,
                    old_types: o.results,
                    new_types: n.results,
                },
            ]
        } else {
            Seq::empty()
        },
    }
}

/// All breaking changes, following the old binary's function order.
pub open spec fn breaking_of(old: Seq<SignatureView>, new: Seq<SignatureView>) -> Seq<
    BreakingChangeView,
>
    decreases old.len(),
{
    if old.len() == 0 {
        Seq::empty()
    } else {
        breaking_of(old.drop_last(), new) + sig_changes(
            old.last(),
            sig_lookup(new, old.last().name),
        )
    }
}

/// All additions, following the new binary's function order.
pub open spec fn added_of(old: Seq<SignatureView>, new: Seq<SignatureView>) -> Seq<
    NonBreakingChangeView,
>
    decreases new.len(),
{
    if new.len() == 0 {
        Seq::empty()
    } else {
        added_of(old, new.drop_last()) + if !contains_name(old, new.last().name) {
            seq![NonBreakingChangeView::FunctionAdded { name: new.last().name }]
        } else {
            Seq::empty()
        }
    }
}

/// Two type lists hold the same types.
pub fn types_eq(a: &[WasmType], b: &[WasmType]) -> (r: bool)
    ensures
        r == (a@ == b@),
{
    if a.len() != b.len() {
        proof {
            assert(a@.len() != b@.len());
        }
        return false;
    }
    let mut i: usize = 0;
    while i < a.len()
        invariant
            a@.len() == b@.len(),
            i <= a@.len(),
            forall|j: int| 0 <= j < i ==> a@[j] == b@[j],
        decreases a@.len() - i,
    {
        if a[i] != b[i] {
            return false;
        }
        i += 1;
    }
    proof {
        assert(a@ =~= b@);
    }
    true
}

/// The last signature bearing `name`, if any.
fn find_sig<'a>(sigs: &'a [FunctionSignature], name: &str) -> (r: Option<&'a FunctionSignature>)
    ensures
        match r {
            Some(s) => sig_lookup(sig_views(sigs@), name@) == Some(s@),
            None => sig_lookup(sig_views(sigs@), name@) is None,
        },
{
    let nc = chars_of(name);
    let mut j: usize = sigs.len();
    proof {
        assert(sig_views(sigs@).subrange(0, j as int) =~= sig_views(sigs@));
        assert(sig_lookup(sig_views(sigs@), name@) == sig_lookup(
            sig_views(sigs@).subrange(0, j as int),
            name@,
        ));
    }
    while j > 0
        invariant
            j <= sigs@.len(),
            nc@ == name@,
            sig_lookup(sig_views(sigs@), name@) == sig_lookup(
                sig_views(sigs@).subrange(0, j as int),
                name@,
            ),
        decreases j,
    {
        proof {
            let v = sig_views(sigs@).subrange(0, j as int);
            assert(v.last() == sig_views(sigs@)[j - 1]);
            assert(v.drop_last() =~= sig_views(sigs@).subrange(0, j - 1));
        }
        let sc = chars_of(sigs[j - 1].name.as_str());
        if chars_eq(sc.as_slice(), nc.as_slice()) {
            return Some(&sigs[j - 1]);
        }
        j -= 1;
    }
    None
}

/// Some signature bears `name`.
fn has_name(sigs: &[FunctionSignature], name: &str) -> (r: bool)
    ensures
        r == contains_name(sig_views(sigs@), name@),
{
    let nc = chars_of(name);
    let mut i: usize = 0;
    while i < sigs.len()
        invariant
            i <= sigs@.len(),
            nc@ == name@,
            forall|j: int| 0 <= j < i ==> sig_views(sigs@)[j].name != name@,
        decreases sigs@.len() - i,
    {
        let sc = chars_of(sigs[i].name.as_str());
        if chars_eq(sc.as_slice(), nc.as_slice()) {
            proof {
                assert(sig_views(sigs@)[i as int].name == name@);
            }
            return true;
        }
        i += 1;
    }
    false
}

/// The analyser: signature extraction plus structural diff.
pub struct UpgradeAnalyzer;

impl UpgradeAnalyzer {
    /// Diff two signature lists into breaking and non-breaking changes, in
    /// the order the binaries list their functions.
    pub fn diff_signatures(old: &[FunctionSignature], new: &[FunctionSignature]) -> (r: (
        Vec<BreakingChange>,
        Vec<NonBreakingChange>,
    ))
        ensures
            r.0@.map_values(|c: BreakingChange| c@) == breaking_of(
                sig_views(old@),
                sig_views(new@),
            ),
            r.1@.map_values(|c: NonBreakingChange| c@) == added_of(
                sig_views(old@),
                sig_views(new@),
            ),
    {
        let mut breaking: Vec<BreakingChange> = Vec::new();
        let mut non_breaking: Vec<NonBreakingChange> = Vec::new();
        let ghost ov = sig_views(old@);
        let ghost nv = sig_views(new@);
        let mut i: usize = 0;
        proof {
            assert(ov.subrange(0, 0) =~= Seq::<SignatureView>::empty());
            assert(breaking@.map_values(|c: BreakingChange| c@) =~= breaking_of(
                ov.subrange(0, 0),
                nv,
            ));
        }
        while i < old.len()
            invariant
                i <= old@.len(),
                ov == sig_views(old@),
                nv == sig_views(new@),
                breaking@.map_values(|c: BreakingChange| c@) == breaking_of(
                    ov.subrange(0, i as int),
                    nv,
                ),
                non_breaking@.len() == 0,
            decreases old@.len() - i,
        {
            let old_sig = &old[i];
            let ghost pre = breaking@;
            proof {
                let p = ov.subrange(0, i + 1);
                assert(p.drop_last() =~= ov.subrange(0, i as int));
                assert(p.last() == ov[i as int]);
            }
            match find_sig(new, old_sig.name.as_str()) {
                None => {
                    breaking.push(
                        BreakingChange::FunctionRemoved { name: clone_string(&old_sig.name) },
                    );
                    proof {
                        assert(breaking@ =~= pre.push(breaking@.last()));
                        assert(breaking@.map_values(|c: BreakingChange| c@) =~= pre.map_values(
                            |c: BreakingChange| c@,
                        ).push(breaking@.last()@));
                        assert(breaking@.map_values(|c: BreakingChange| c@) =~= breaking_of(
                            ov.subrange(0, i + 1),
                            nv,
                        ));
                    }
                },
                Some(new_sig) => {
                    let ghost nsv = new_sig@;
                    if old_sig.params.len() != new_sig.params.len() {
                        breaking.push(
                            BreakingChange::ParameterCountChanged {
                                name: clone_string(&old_sig.name),
                                old_count: old_sig.params.len(),
                                new_count: new_sig.params.len(),
                            },
                        );
                        proof {
                            assert(breaking@ =~= pre.push(breaking@.last()));
                            assert(breaking@.map_values(|c: BreakingChange| c@)
                                =~= pre.map_values(|c: BreakingChange| c@).push(
                                breaking@.last()@,
                            ));
                        }
                    } else {
                        let mut k: usize = 0;
                        proof {
                            assert(param_changes(
                                old_sig@.name,
                                old_sig.params@.subrange(0, 0),
                                nsv.params.subrange(0, 0),
                            ) =~= Seq::<BreakingChangeView>::empty());
                            assert(breaking@.map_values(|c: BreakingChange| c@)
                                =~= pre.map_values(|c: BreakingChange| c@) + param_changes(
                                old_sig@.name,
                                old_sig.params@.subrange(0, 0),
                                nsv.params.subrange(0, 0),
                            ));
                        }
                        while k < old_sig.params.len()
                            invariant
                                k <= old_sig.params@.len(),
                                old_sig.params@.len() == nsv.params.len(),
                                nsv == new_sig@,
                                breaking@.map_values(|c: BreakingChange| c@)
                                    == pre.map_values(|c: BreakingChange| c@) + param_changes(
                                    old_sig@.name,
                                    old_sig.params@.subrange(0, k as int),
                                    nsv.params.subrange(0, k as int),
                                ),
                            decreases old_sig.params@.len() - k,
                        {
                            let ghost bpre = breaking@;
                            proof {
                                let po = old_sig.params@.subrange(0, k + 1);
                                let pn = nsv.params.subrange(0, k + 1);
                                assert(po.drop_last() =~= old_sig.params@.subrange(0, k as int));
                                assert(pn.drop_last() =~= nsv.params.subrange(0, k as int));
                                assert(po.last() == old_sig.params@[k as int]);
                                assert(pn.last() == nsv.params[k as int]);
                            }
                            if !wasm_type_eq(old_sig.params[k], new_sig.params[k]) {
                                breaking.push(
                                    BreakingChange::ParameterTypeChanged {
                                        name: clone_string(&old_sig.name),
                                        index: k,
                                        old_type: old_sig.params[k],
                                        new_type: new_sig.params[k],
                                    },
                                );
                                proof {
                                    assert(breaking@ =~= bpre.push(breaking@.last()));
                                    assert(breaking@.map_values(|c: BreakingChange| c@)
                                        =~= bpre.map_values(|c: BreakingChange| c@).push(
                                        breaking@.last()@,
                                    ));
                                    assert(breaking@.map_values(|c: BreakingChange| c@)
                                        =~= bpre.map_values(|c: BreakingChange| c@) + seq![
                                        breaking@.last()@,
                                    ]);
                                }
                            }
                            k += 1;
                        }
                        proof {
                            assert(old_sig.params@.subrange(
                                0,
                                old_sig.params@.len() as int,
                            ) =~= old_sig.params@);
                            assert(nsv.params.subrange(0, nsv.params.len() as int)
                                =~= nsv.params);
                        }
                    }
                    let ghost mid = breaking@;
                    if !types_eq(old_sig.results.as_slice(), new_sig.results.as_slice()) {
                        breaking.push(
                            BreakingChange::ReturnTypeChanged {
                                name: clone_string(&old_sig.name),
                                old_types: copy_types(old_sig.results.as_slice()),
                                new_types: copy_types(new_sig.results.as_slice()),
                            },
                        );
                        proof {
                            assert(breaking@ =~= mid.push(breaking@.last()));
                            assert(breaking@.map_values(|c: BreakingChange| c@)
                                =~= mid.map_values(|c: BreakingChange| c@).push(
                                breaking@.last()@,
                            ));
                        }
                    }
                    proof {
                        assert(breaking@.map_values(|c: BreakingChange| c@)
                            =~= pre.map_values(|c: BreakingChange| c@) + sig_changes(
                            ov[i as int],
                            sig_lookup(nv, ov[i as int].name),
                        ));
                        assert(breaking@.map_values(|c: BreakingChange| c@) =~= breaking_of(
                            ov.subrange(0, i + 1),
                            nv,
                        ));
                    }
                },
            }
            i += 1;
        }
        proof {
            assert(ov.subrange(0, old@.len() as int) =~= ov);
        }
        let mut j: usize = 0;
        proof {
            assert(nv.subrange(0, 0) =~= Seq::<SignatureView>::empty());
            assert(non_breaking@.map_values(|c: NonBreakingChange| c@) =~= added_of(
                ov,
                nv.subrange(0, 0),
            ));
        }
        while j < new.len()
            invariant
                j <= new@.len(),
                ov == sig_views(old@),
                nv == sig_views(new@),
                breaking@.map_values(|c: BreakingChange| c@) == breaking_of(ov, nv),
                non_breaking@.map_values(|c: NonBreakingChange| c@) == added_of(
                    ov,
                    nv.subrange(0, j as int),
                ),
            decreases new@.len() - j,
        {
            let ghost pre = non_breaking@;
            proof {
                let p = nv.subrange(0, j + 1);
                assert(p.drop_last() =~= nv.subrange(0, j as int));
                assert(p.last() == nv[j as int]);
            }
            if !has_name(old, new[j].name.as_str()) {
                non_breaking.push(
                    NonBreakingChange::FunctionAdded { name: clone_string(&new[j].name) },
                );
                proof {
                    assert(non_breaking@ =~= pre.push(non_breaking@.last()));
                    assert(non_breaking@.map_values(|c: NonBreakingChange| c@)
                        =~= pre.map_values(|c: NonBreakingChange| c@).push(
                        non_breaking@.last()@,
                    ));
                }
            }
            j += 1;
        }
        proof {
            assert(nv.subrange(0, new@.len() as int) =~= nv);
        }
        (breaking, non_breaking)
    }
}

/// An element belongs to a concatenation exactly when it belongs to a part.
proof fn lemma_contains_concat<T>(a: Seq<T>, b: Seq<T>, x: T)
    ensures
        (a + b).contains(x) <==> a.contains(x) || b.contains(x),
{
    if a.contains(x) {
        let i = choose|i: int| 0 <= i < a.len() && a[i] == x;
        assert((a + b)[i] == x);
    }
    if b.contains(x) {
        let i = choose|i: int| 0 <= i < b.len() && b[i] == x;
        assert((a + b)[a.len() + i] == x);
    }
    if (a + b).contains(x) {
        let i = choose|i: int| 0 <= i < (a + b).len() && (a + b)[i] == x;
        if i < a.len() {
            assert(a[i] == x);
        } else {
            assert(b[i - a.len()] == x);
        }
    }
}

/// Every per-parameter change is a parameter type change.
proof fn lemma_param_changes_shape(name: Seq<char>, op: Seq<WasmType>, np: Seq<WasmType>)
    ensures
        forall|i: int|
            0 <= i < param_changes(name, op, np).len() ==> #[trigger] param_changes(
                name,
                op,
                np,
            )[i] is ParameterTypeChanged,
    decreases op.len(),
{
    if op.len() != 0 && op.len() == np.len() {
        lemma_param_changes_shape(name, op.drop_last(), np.drop_last());
    }
}

/// A name looks up to nothing exactly when no signature bears it.
proof fn lemma_sig_lookup_none(s: Seq<SignatureView>, name: Seq<char>)
    ensures
        sig_lookup(s, name) is None <==> !contains_name(s, name),
    decreases s.len(),
{
    if s.len() > 0 {
        lemma_sig_lookup_none(s.drop_last(), name);
        if s.last().name == name {
            assert(s[s.len() - 1].name == name);
        } else {
            if contains_name(s, name) {
                let i = choose|i: int| 0 <= i < s.len() && s[i].name == name;
                assert(s.drop_last()[i].name == name);
            }
            if contains_name(s.drop_last(), name) {
                let i = choose|i: int|
                    0 <= i < s.drop_last().len() && s.drop_last()[i].name == name;
                assert(s[i].name == name);
            }
        }
    }
}

/// Law: the diff marks a function removed exactly when the old binary has it
/// and the new one does not.
pub proof fn lemma_removed_iff(old: Seq<SignatureView>, new: Seq<SignatureView>, f: Seq<char>)
    ensures
        breaking_of(old, new).contains(BreakingChangeView::FunctionRemoved { name: f }) <==> (
        contains_name(old, f) && !contains_name(new, f)),
    decreases old.len(),
{
    let x = BreakingChangeView::FunctionRemoved { name: f };
    if old.len() > 0 {
        lemma_removed_iff(old.drop_last(), new, f);
        let o = old.last();
        let ch = sig_changes(o, sig_lookup(new, o.name));
        lemma_contains_concat(breaking_of(old.drop_last(), new), ch, x);
        lemma_sig_lookup_none(new, o.name);
        match sig_lookup(new, o.name) {
            None => {
                assert(ch =~= seq![BreakingChangeView::FunctionRemoved { name: o.name }]);
                if o.name == f {
                    assert(ch[0] == x);
                    assert(ch.contains(x));
                }
                if ch.contains(x) {
                    let i = choose|i: int| 0 <= i < ch.len() && ch[i] == x;
                    assert(i == 0);
                    assert(o.name == f);
                }
            },
            Some(n) => {
                assert(!ch.contains(x)) by {
                    if ch.contains(x) {
                        let i = choose|i: int| 0 <= i < ch.len() && ch[i] == x;
                        let count_part = if o.params.len() != n.params.len() {
                            seq![
                                BreakingChangeView::ParameterCountChanged {
                                    name: o.name,
                                    old_count: o.params.len() as int,
                                    new_count: n.params.len() as int,
                                },
                            ]
                        } else {
                            param_changes(o.name, o.params, n.params)
                        };
                        let ret_part = if o.results != n.results {
                            seq![
                                BreakingChangeView::ReturnTypeChanged {
                                    name: o.name,
                                    old_types: o.results,
                                    new_types: n.results,
                                },
                            ]
                        } else {
                            Seq::<BreakingChangeView>::empty()
                        };
                        lemma_contains_concat(count_part, ret_part, x);
                        lemma_param_changes_shape(o.name, o.params, n.params);
                        if count_part.contains(x) {
                            let j = choose|j: int|
                                0 <= j < count_part.len() && count_part[j] == x;
                            assert(false);
                        } else {
                            let j = choose|j: int| 0 <= j < ret_part.len() && ret_part[j] == x;
                            assert(false);
                        }
                    }
                }
            },
        }
        if contains_name(old, f) && !contains_name(new, f) {
            let i = choose|i: int| 0 <= i < old.len() && old[i].name == f;
            if i < old.len() - 1 {
                assert(old.drop_last()[i].name == f);
            }
        }
        if contains_name(old.drop_last(), f) {
            let i = choose|i: int|
                0 <= i < old.drop_last().len() && old.drop_last()[i].name == f;
            assert(old[i].name == f);
        }
        if o.name == f {
            assert(old[old.len() - 1].name == f);
        }
    }
}

/// Law: the diff marks a function added exactly when the new binary has it
/// and the old one does not.
pub proof fn lemma_added_iff(old: Seq<SignatureView>, new: Seq<SignatureView>, f: Seq<char>)
    ensures
        added_of(old, new).contains(NonBreakingChangeView::FunctionAdded { name: f }) <==> (
        contains_name(new, f) && !contains_name(old, f)),
    decreases new.len(),
{
    let x = NonBreakingChangeView::FunctionAdded { name: f };
    if new.len() > 0 {
        lemma_added_iff(old, new.drop_last(), f);
        let tail = if !contains_name(old, new.last().name) {
            seq![NonBreakingChangeView::FunctionAdded { name: new.last().name }]
        } else {
            Seq::<NonBreakingChangeView>::empty()
        };
        lemma_contains_concat(added_of(old, new.drop_last()), tail, x);
        if !contains_name(old, new.last().name) {
            if new.last().name == f {
                assert(tail[0] == x);
                assert(tail.contains(x));
            }
            if tail.contains(x) {
                let i = choose|i: int| 0 <= i < tail.len() && tail[i] == x;
                assert(i == 0);
                assert(new.last().name == f);
            }
        }
        if new.last().name == f {
            assert(new[new.len() - 1].name == f);
        }
        if contains_name(new.drop_last(), f) {
            let i = choose|i: int|
                0 <= i < new.drop_last().len() && new.drop_last()[i].name == f;
            assert(new[i].name == f);
        }
        if contains_name(new, f) && !(new.last().name == f) {
            let i = choose|i: int| 0 <= i < new.len() && new[i].name == f;
            assert(new.drop_last()[i].name == f);
        }
    }
}

/// Law: a removal in one direction is an addition in the other. For every
/// function name unique to one side, diffing old against new marks it removed
/// exactly when diffing new against old marks it added.
pub proof fn lemma_diff_symmetry(old: Seq<SignatureView>, new: Seq<SignatureView>, f: Seq<char>)
    ensures
        breaking_of(old, new).contains(BreakingChangeView::FunctionRemoved { name: f })
            <==> added_of(new, old).contains(NonBreakingChangeView::FunctionAdded { name: f }),
{
    lemma_removed_iff(old, new, f);
    lemma_added_iff(new, old, f);
}

/// No two signatures bear the same name.
pub open spec fn unique_names(s: Seq<SignatureView>) -> bool {
    forall|i: int, j: int| 0 <= i < j < s.len() ==> s[i].name != s[j].name
}

/// Under unique names, looking a signature's own name up gives it back.
proof fn lemma_lookup_unique(s: Seq<SignatureView>, i: int)
    requires
        unique_names(s),
        0 <= i < s.len(),
    ensures
        sig_lookup(s, s[i].name) == Some(s[i]),
    decreases s.len(),
{
    if i == s.len() - 1 {
    } else {
        assert(unique_names(s.drop_last())) by {
            assert forall|p: int, q: int|
                0 <= p < q < s.drop_last().len() implies #[trigger] s.drop_last()[p].name
                != #[trigger] s.drop_last()[q].name by {
                assert(s[p].name != s[q].name);
            }
        }
        lemma_lookup_unique(s.drop_last(), i);
        assert(s[i].name != s.last().name);
    }
}

/// Identical parameter lists contribute no change.
proof fn lemma_param_changes_self(name: Seq<char>, p: Seq<WasmType>)
    ensures
        param_changes(name, p, p) == Seq::<BreakingChangeView>::empty(),
    decreases p.len(),
{
    if p.len() > 0 {
        lemma_param_changes_self(name, p.drop_last());
        assert(param_changes(name, p, p) =~= param_changes(name, p.drop_last(), p.drop_last()));
    }
}

/// Law: diffing a binary's signatures against themselves yields no change in
/// either direction, as long as each function name occurs once.
pub proof fn lemma_diff_identity(s: Seq<SignatureView>)
    requires
        unique_names(s),
    ensures
        breaking_of(s, s) == Seq::<BreakingChangeView>::empty(),
        added_of(s, s) == Seq::<NonBreakingChangeView>::empty(),
{
    lemma_breaking_self(s, s.len() as int);
    assert(s.subrange(0, s.len() as int) =~= s);
    lemma_added_self(s, s.len() as int);
}

/// Prefixes of a signature list contribute no breaking change against the
/// whole list.
proof fn lemma_breaking_self(s: Seq<SignatureView>, k: int)
    requires
        unique_names(s),
        0 <= k <= s.len(),
    ensures
        breaking_of(s.subrange(0, k), s) == Seq::<BreakingChangeView>::empty(),
    decreases k,
{
    if k == 0 {
        assert(s.subrange(0, 0) =~= Seq::<SignatureView>::empty());
    } else {
        lemma_breaking_self(s, k - 1);
        let p = s.subrange(0, k);
        assert(p.drop_last() =~= s.subrange(0, k - 1));
        assert(p.last() == s[k - 1]);
        lemma_lookup_unique(s, k - 1);
        lemma_param_changes_self(s[k - 1].name, s[k - 1].params);
        assert(sig_changes(s[k - 1], Some(s[k - 1])) =~= Seq::<BreakingChangeView>::empty());
        assert(breaking_of(p, s) =~= breaking_of(p.drop_last(), s) + sig_changes(
            s[k - 1],
            sig_lookup(s, s[k - 1].name),
        ));
    }
}

/// Prefixes of a signature list contribute no addition against the whole
/// list.
proof fn lemma_added_self(s: Seq<SignatureView>, k: int)
    requires
        0 <= k <= s.len(),
    ensures
        added_of(s, s.subrange(0, k)) == Seq::<NonBreakingChangeView>::empty(),
    decreases k,
{
    if k == 0 {
        assert(s.subrange(0, 0) =~= Seq::<SignatureView>::empty());
    } else {
        lemma_added_self(s, k - 1);
        let p = s.subrange(0, k);
        assert(p.drop_last() =~= s.subrange(0, k - 1));
        assert(p.last() == s[k - 1]);
        assert(s[k - 1].name == s[k - 1].name && 0 <= k - 1 < s.len());
        assert(contains_name(s, s[k - 1].name));
        assert(added_of(s, p) =~= added_of(s, p.drop_last()));
    }
}

/// A type list joined with commas, as signatures and change reports show it.
pub open spec fn type_list_text(ts: Seq<WasmType>) -> Seq<char>
    decreases ts.len(),
{
    if ts.len() == 0 {
        Seq::empty()
    } else if ts.len() == 1 {
        wasm_type_text(ts[0])
    } else {
        type_list_text(ts.drop_last()) + seq![',', ' '] + wasm_type_text(ts.last())
    }
}

/// Render a type list joined with commas.
pub fn render_type_list(ts: &[WasmType]) -> (r: String)
    ensures
        r@ == type_list_text(ts@),
{
    let mut cs: Vec<char> = Vec::new();
    let mut i: usize = 0;
    proof {
        assert(ts@.subrange(0, 0) =~= Seq::<WasmType>::empty());
        assert(cs@ =~= type_list_text(ts@.subrange(0, 0)));
    }
    while i < ts.len()
        invariant
            i <= ts@.len(),
            cs@ == type_list_text(ts@.subrange(0, i as int)),
        decreases ts@.len() - i,
    {
        if i > 0 {
            cs.push(',');
            cs.push(' ');
        }
        let t = chars_of(ts[i].render().as_str());
        crate::json::append_chars(&mut cs, t.as_slice());
        proof {
            let p = ts@.subrange(0, i + 1);
            assert(p.drop_last() =~= ts@.subrange(0, i as int));
            assert(p.last() == ts@[i as int]);
            if i == 0 {
                assert(p.len() == 1 && p[0] == ts@[0]);
                assert(cs@ =~= type_list_text(p));
            } else {
                assert(cs@ =~= type_list_text(p));
            }
        }
        i += 1;
    }
    proof {
        assert(ts@.subrange(0, ts@.len() as int) =~= ts@);
    }
    string_of(cs.as_slice())
}

/// The display text of a signature: the name, its parameters, its results.
pub open spec fn signature_text(s: SignatureView) -> Seq<char> {
    s.name + seq!['('] + type_list_text(s.params) + seq![')', ' ', '-', '>', ' ', '[']
        + type_list_text(s.results) + seq![']']
}

impl FunctionSignature {
    /// The signature's display text.
    pub fn render(&self) -> (r: String)
        ensures
            r@ == signature_text(self@),
    {
        let mut cs = chars_of(self.name.as_str());
        cs.push('(');
        let p = chars_of(render_type_list(self.params.as_slice()).as_str());
        crate::json::append_chars(&mut cs, p.as_slice());
        cs.push(')');
        cs.push(' ');
        cs.push('-');
        cs.push('>');
        cs.push(' ');
        cs.push('[');
        let q = chars_of(render_type_list(self.results.as_slice()).as_str());
        crate::json::append_chars(&mut cs, q.as_slice());
        cs.push(']');
        proof {
            assert(cs@ =~= signature_text(self@));
        }
        string_of(cs.as_slice())
    }
}

/// The display text of a breaking change, each kind with its marker.
pub open spec fn breaking_change_text(c: BreakingChangeView) -> Seq<char> {
    match c {
        BreakingChangeView::FunctionRemoved { name } => "[REMOVED] "@ + name,
        BreakingChangeView::ParameterCountChanged { name, old_count, new_count } => {
            "[PARAMS_CHANGED] "@ + name + ": "@ + crate::decimal::dec_of(old_count as nat)
                + " params -> "@ + crate::decimal::dec_of(new_count as nat) + " params"@
        },
        BreakingChangeView::ParameterTypeChanged { name, index, old_type, new_type } => {
            "[PARAM_TYPE] "@ + name + " param["@ + crate::decimal::dec_of(index as nat)
                + "]: "@ + wasm_type_text(old_type) + " -> "@ + wasm_type_text(new_type)
        },
        BreakingChangeView::ReturnTypeChanged { name, old_types, new_types } => {
            "[RETURN_TYPE] "@ + name + ": ["@ + type_list_text(old_types) + "] -> ["@
                + type_list_text(new_types) + "]"@
        },
    }
}

impl BreakingChange {
    /// The change's display text.
    pub fn render(&self) -> (r: String)
        ensures
            r@ == breaking_change_text(self@),
    {
        let mut cs: Vec<char> = Vec::new();
        match self {
            BreakingChange::FunctionRemoved { name } => {
                let h = chars_of("[REMOVED] ");
                crate::json::append_chars(&mut cs, h.as_slice());
                let n = chars_of(name.as_str());
                crate::json::append_chars(&mut cs, n.as_slice());
            },
            BreakingChange::ParameterCountChanged { name, old_count, new_count } => {
                let h = chars_of("[PARAMS_CHANGED] ");
                crate::json::append_chars(&mut cs, h.as_slice());
                let n = chars_of(name.as_str());
                crate::json::append_chars(&mut cs, n.as_slice());
                let sep = chars_of(": ");
                crate::json::append_chars(&mut cs, sep.as_slice());
                let oc = crate::decimal::u128_to_dec(*old_count as u128);
                crate::json::append_chars(&mut cs, oc.as_slice());
                let mid = chars_of(" params -> ");
                crate::json::append_chars(&mut cs, mid.as_slice());
                let nc = crate::decimal::u128_to_dec(*new_count as u128);
                crate::json::append_chars(&mut cs, nc.as_slice());
                let tail = chars_of(" params");
                crate::json::append_chars(&mut cs, tail.as_slice());
            },
            BreakingChange::ParameterTypeChanged { name, index, old_type, new_type } => {
                let h = chars_of("[PARAM_TYPE] ");
                crate::json::append_chars(&mut cs, h.as_slice());
                let n = chars_of(name.as_str());
                crate::json::append_chars(&mut cs, n.as_slice());
                let sep = chars_of(" param[");
                crate::json::append_chars(&mut cs, sep.as_slice());
                let ic = crate::decimal::u128_to_dec(*index as u128);
                crate::json::append_chars(&mut cs, ic.as_slice());
                let close = chars_of("]: ");
                crate::json::append_chars(&mut cs, close.as_slice());
                let ot = chars_of(old_type.render().as_str());
                crate::json::append_chars(&mut cs, ot.as_slice());
                let arrow = chars_of(" -> ");
                crate::json::append_chars(&mut cs, arrow.as_slice());
                let nt = chars_of(new_type.render().as_str());
                crate::json::append_chars(&mut cs, nt.as_slice());
            },
            BreakingChange::ReturnTypeChanged { name, old_types, new_types } => {
                let h = chars_of("[RETURN_TYPE] ");
                crate::json::append_chars(&mut cs, h.as_slice());
                let n = chars_of(name.as_str());
                crate::json::append_chars(&mut cs, n.as_slice());
                let sep = chars_of(": [");
                crate::json::append_chars(&mut cs, sep.as_slice());
                let ot = chars_of(render_type_list(old_types.as_slice()).as_str());
                crate::json::append_chars(&mut cs, ot.as_slice());
                let arrow = chars_of("] -> [");
                crate::json::append_chars(&mut cs, arrow.as_slice());
                let nt = chars_of(render_type_list(new_types.as_slice()).as_str());
                crate::json::append_chars(&mut cs, nt.as_slice());
                cs.push(']');
            },
        }
        proof {
            reveal_strlit("]");
            assert("]"@.len() == 1 && "]"@[0] == ']');
            assert("]"@ =~= seq![']']);
            assert(cs@ =~= breaking_change_text(self@));
        }
        string_of(cs.as_slice())
    }
}

impl NonBreakingChange {
    /// The change's display text.
    pub fn render(&self) -> (r: String)
        ensures
            r@ == (match self@ {
                NonBreakingChangeView::FunctionAdded { name } => "[ADDED] "@ + name,
            }),
    {
        let mut cs: Vec<char> = Vec::new();
        match self {
            NonBreakingChange::FunctionAdded { name } => {
                let h = chars_of("[ADDED] ");
                crate::json::append_chars(&mut cs, h.as_slice());
                let n = chars_of(name.as_str());
                crate::json::append_chars(&mut cs, n.as_slice());
            },
        }
        proof {
            assert(cs@ =~= (match self@ {
                NonBreakingChangeView::FunctionAdded { name } => "[ADDED] "@ + name,
            }));
        }
        string_of(cs.as_slice())
    }
}

/// An execution compared across the two versions: one invocation's inputs
/// and both results.
#[derive(Debug, PartialEq, Eq)]
pub struct ExecutionDiff {
    pub function: String,
    pub args: String,
    pub old_result: String,
    pub new_result: String,
    pub outputs_match: bool,
}

/// The mathematical form of an execution diff.
pub struct ExecutionDiffView {
    pub function: Seq<char>,
    pub args: Seq<char>,
    pub old_result: Seq<char>,
    pub new_result: Seq<char>,
    pub outputs_match: bool,
}

impl View for ExecutionDiff {
    type V = ExecutionDiffView;

    open spec fn view(&self) -> ExecutionDiffView {
        ExecutionDiffView {
            function: self.function@,
            args: self.args@,
            old_result: self.old_result@,
            new_result: self.new_result@,
            outputs_match: self.outputs_match,
        }
    }
}

/// The full compatibility report of one upgrade.
#[derive(Debug)]
pub struct CompatibilityReport {
    pub is_compatible: bool,
    pub old_wasm_path: String,
    pub new_wasm_path: String,
    pub breaking_changes: Vec<BreakingChange>,
    pub non_breaking_changes: Vec<NonBreakingChange>,
    pub old_functions: Vec<FunctionSignature>,
    pub new_functions: Vec<FunctionSignature>,
    pub execution_diffs: Vec<ExecutionDiff>,
}

/// Every recorded execution produced matching outputs.
pub open spec fn all_outputs_match(ds: Seq<ExecutionDiff>) -> bool {
    forall|i: int| 0 <= i < ds.len() ==> (#[trigger] ds[i]).outputs_match
}

impl UpgradeAnalyzer {
    /// Analyse two contract binaries: extract both signature lists, diff
    /// them, and report compatibility. The upgrade is compatible exactly
    /// when nothing breaking was found and every recorded execution diff
    /// matched. Fails exactly when either binary is rejected by the reader.
    pub fn analyze(
        old_wasm: &[u8],
        new_wasm: &[u8],
        old_path: &str,
        new_path: &str,
        execution_diffs: Vec<ExecutionDiff>,
    ) -> (r: Result<CompatibilityReport, crate::DebuggerError>)
        ensures
            match r {
                Ok(rep) => {
                    &&& crate::wasm::signatures_spec(old_wasm@) == Some(
                        rep.old_functions@.map_values(|s: FunctionSignature| s@),
                    )
                    &&& crate::wasm::signatures_spec(new_wasm@) == Some(
                        rep.new_functions@.map_values(|s: FunctionSignature| s@),
                    )
                    &&& rep.breaking_changes@.map_values(|c: BreakingChange| c@)
                        == breaking_of(
                        sig_views(rep.old_functions@),
                        sig_views(rep.new_functions@),
                    )
                    &&& rep.non_breaking_changes@.map_values(|c: NonBreakingChange| c@)
                        == added_of(
                        sig_views(rep.old_functions@),
                        sig_views(rep.new_functions@),
                    )
                    &&& rep.old_wasm_path@ == old_path@
                    &&& rep.new_wasm_path@ == new_path@
                    &&& rep.execution_diffs == execution_diffs
                    &&& rep.is_compatible == (rep.breaking_changes@.len() == 0
                        && all_outputs_match(execution_diffs@))
                },
                Err(e) => {
                    &&& crate::wasm::signatures_spec(old_wasm@) is None
                        || crate::wasm::signatures_spec(new_wasm@) is None
                    &&& e == crate::DebuggerError::InvalidBinary
                },
            },
    {
        let old_functions = match crate::wasm::parse_function_signatures(old_wasm) {
            Ok(sigs) => sigs,
            Err(e) => {
                return Err(e);
            },
        };
        let new_functions = match crate::wasm::parse_function_signatures(new_wasm) {
            Ok(sigs) => sigs,
            Err(e) => {
                return Err(e);
            },
        };
        let (breaking_changes, non_breaking_changes) = Self::diff_signatures(
            old_functions.as_slice(),
            new_functions.as_slice(),
        );
        proof {
            assert(sig_views(old_functions@) =~= old_functions@.map_values(
                |s: FunctionSignature| s@,
            ));
        }
        let mut all_match = true;
        let mut i: usize = 0;
        while i < execution_diffs.len()
            invariant
                i <= execution_diffs@.len(),
                all_match == (forall|j: int|
                    0 <= j < i ==> (#[trigger] execution_diffs@[j]).outputs_match),
            decreases execution_diffs@.len() - i,
        {
            if !execution_diffs[i].outputs_match {
                all_match = false;
            }
            i += 1;
        }
        let is_compatible = breaking_changes.len() == 0 && all_match;
        Ok(
            CompatibilityReport {
                is_compatible,
                old_wasm_path: old_path.to_owned(),
                new_wasm_path: new_path.to_owned(),
                breaking_changes,
                non_breaking_changes,
                old_functions,
                new_functions,
                execution_diffs,
            },
        )
    }
}

/// Law: analysing a binary against itself finds nothing: when a binary's
/// signatures read back with each name occurring once, the diff of that list
/// against itself is empty in both directions.
pub proof fn lemma_analyze_identity(b: Seq<u8>)
    requires
        crate::wasm::signatures_spec(b) is Some,
        unique_names(crate::wasm::signatures_spec(b)->0),
    ensures
        breaking_of(crate::wasm::signatures_spec(b)->0, crate::wasm::signatures_spec(b)->0)
            == Seq::<BreakingChangeView>::empty(),
        added_of(crate::wasm::signatures_spec(b)->0, crate::wasm::signatures_spec(b)->0)
            == Seq::<NonBreakingChangeView>::empty(),
{
    lemma_diff_identity(crate::wasm::signatures_spec(b)->0);
}

/// Whether two value types are the same tag.
pub fn wasm_type_eq(a: WasmType, b: WasmType) -> (r: bool)
    ensures
        r == (a == b),
{
    a == b
}

/// A copy of a type list.
fn copy_types(ts: &[WasmType]) -> (r: Vec<WasmType>)
    ensures
        r@ == ts@,
{
    let mut r: Vec<WasmType> = Vec::new();
    let mut i: usize = 0;
    while i < ts.len()
        invariant
            i <= ts@.len(),
            r@ == ts@.subrange(0, i as int),
        decreases ts@.len() - i,
    {
        r.push(ts[i]);
        proof {
            assert(r@ =~= ts@.subrange(0, i + 1));
        }
        i += 1;
    }
    proof {
        assert(r@ =~= ts@);
    }
    r
}

} // verus!
