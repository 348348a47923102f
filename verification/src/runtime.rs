//! Runtime records and decisions: the invocation outcome and its
//! classification, storage snapshots and diffs, the memory tracker, the mock
//! registry, and the error catalogue. The host sandbox itself stays outside;
//! these functions take its results as plain values and decide everything
//! the debugger reports.

use vstd::prelude::*;

use crate::json::JsonValue;
use crate::kv::clone_string;
use crate::kv::entries_map;
use crate::kv::StrMap;
use crate::strutil::string_of;

verus! {

/// A captured execution trace: the function, its serialised arguments, the
/// serialised result or the error text, and the storage before and after.
pub struct ExecutionRecord {
    pub function: String,
    pub args: Vec<String>,
    pub result: Result<String, String>,
    pub storage_before: StrMap<String>,
    pub storage_after: StrMap<String>,
}

/// A storage snapshot taken for dry-run rollback: the full keyed state as
/// the storage inspector reads it.
pub struct StorageSnapshot {
    pub storage: StrMap<String>,
}

/// Instruction counts per function.
#[derive(Debug)]
pub struct InstructionCounts {
    pub function_counts: Vec<(String, u64)>,
    pub total: u64,
}

/// The host's nested invocation outcome, as plain data: a returned value
/// with its serialisation, a failed return conversion, a typed contract
/// error code, an abort, or an internal error.
#[derive(Debug, PartialEq, Eq)]
pub enum InvokeOutcome {
    Value { debug_text: String, serialized: Result<String, String> },
    ReturnConversionFailed { detail: String },
    ContractError { code: u32 },
    Aborted,
    InternalError { detail: String },
}

/// The catalogue of the contract's declared error codes.
pub struct ErrorDatabase {
    pub entries: Vec<(u32, String, String)>,
}

/// The first catalogue entry for a code.
pub open spec fn err_lookup(s: Seq<(u32, String, String)>, code: u32) -> Option<
    (Seq<char>, Seq<char>),
>
    decreases s.len(),
{
    if s.len() == 0 {
        None
    } else if s[0].0 == code {
        Some((s[0].1@, s[0].2@))
    } else {
        err_lookup(s.drop_first(), code)
    }
}

impl ErrorDatabase {
    /// An empty catalogue.
    pub fn new() -> (r: Self)
        ensures
            r.entries@.len() == 0,
    {
        ErrorDatabase { entries: Vec::new() }
    }

    /// Record one declared error code with its name and documentation.
    pub fn add_error(&mut self, code: u32, name: String, doc: String)
        ensures
            final(self).entries@ == old(self).entries@.push((code, name, doc)),
    {
        self.entries.push((code, name, doc));
    }

    /// The display text of a code: `name: doc` for a declared code, nothing
    /// for an unknown one.
    pub fn display_error(&self, code: u32) -> (r: Option<String>)
        ensures
            match r {
                Some(s) => err_lookup(self.entries@, code) matches Some(e) && s@ == e.0 + seq![
                    ':',
                    ' ',
                ] + e.1,
                None => err_lookup(self.entries@, code) is None,
            },
    {
        let mut i: usize = 0;
        proof {
            assert(self.entries@.skip(0) =~= self.entries@);
        }
        while i < self.entries.len()
            invariant
                i <= self.entries@.len(),
                err_lookup(self.entries@, code) == err_lookup(
                    self.entries@.skip(i as int),
                    code,
                ),
            decreases self.entries@.len() - i,
        {
            proof {
                assert(self.entries@.skip(i as int)[0] == self.entries@[i as int]);
                assert(self.entries@.skip(i as int).drop_first() =~= self.entries@.skip(
                    i + 1,
                ));
            }
            if self.entries[i].0 == code {
                let mut out = clone_string(&self.entries[i].1);
                out.append(": ");
                out.append(self.entries[i].2.as_str());
                proof {
                    reveal_strlit(": ");
                    assert(": "@ =~= seq![':', ' ']);
                }
                return Some(out);
            }
            i += 1;
        }
        None
    }
}

/// The display text the invoker reports for an outcome, and what the record
/// keeps: the trichotomy of the host's nested result.
pub open spec fn display_of_outcome(o: InvokeOutcome) -> Result<Seq<char>, Seq<char>> {
    match o {
        InvokeOutcome::Value { debug_text, serialized } => match serialized {
            Ok(_) => Ok(debug_text@),
            Err(d) => Err("Result conversion failed: "@ + d@),
        },
        InvokeOutcome::ReturnConversionFailed { detail } => Err(
            "Return value conversion failed: "@ + detail@,
        ),
        InvokeOutcome::ContractError { code } => Err(
            "The contract returned an error code: "@ + crate::decimal::dec_of(code as nat)
                + ". This typically indicates a business logic failure (e.g. `panic!` or `require!`)."@,
        ),
        InvokeOutcome::Aborted => Err(
            "Contract execution was aborted. This could be due to a trap, budget exhaustion, or an explicit abort call."@,
        ),
        InvokeOutcome::InternalError { detail } => Err(
            "Invocation failed with internal error: "@ + detail@,
        ),
    }
}

/// What the record keeps for an outcome: the serialised value on success,
/// else the same error text the display carries.
pub open spec fn record_of_outcome(o: InvokeOutcome) -> Result<Seq<char>, Seq<char>> {
    match o {
        InvokeOutcome::Value { debug_text, serialized } => match serialized {
            Ok(s) => Ok(s@),
            Err(d) => Err("Result conversion failed: "@ + d@),
        },
        _ => match display_of_outcome(o) {
            Ok(s) => Err(s),
            Err(m) => Err(m),
        },
    }
}

/// Classify the host's invocation outcome: the display text, what the
/// record keeps, and the catalogue note for a typed contract error.
pub fn format_invocation_result(o: InvokeOutcome, error_db: &ErrorDatabase) -> (r: (
    Result<String, String>,
    Result<String, String>,
    Option<String>,
))
    ensures
        (match r.0 {
            Ok(s) => display_of_outcome(o) == Ok::<Seq<char>, Seq<char>>(s@),
            Err(m) => display_of_outcome(o) == Err::<Seq<char>, Seq<char>>(m@),
        }),
        (match r.1 {
            Ok(s) => record_of_outcome(o) == Ok::<Seq<char>, Seq<char>>(s@),
            Err(m) => record_of_outcome(o) == Err::<Seq<char>, Seq<char>>(m@),
        }),
        (match r.2 {
            Some(s) => o matches InvokeOutcome::ContractError { code } && (err_lookup(
                error_db.entries@,
                code,
            ) matches Some(e) && s@ == e.0 + seq![':', ' '] + e.1),
            None => !(o matches InvokeOutcome::ContractError { code } && err_lookup(
                error_db.entries@,
                code,
            ) is Some),
        }),
{
    match o {
        InvokeOutcome::Value { debug_text, serialized } => match serialized {
            Ok(s) => (Ok(debug_text), Ok(s), None),
            Err(d) => {
                let mut m = "Result conversion failed: ".to_owned();
                m.append(d.as_str());
                let m2 = clone_string(&m);
                (Err(m), Err(m2), None)
            },
        },
        InvokeOutcome::ReturnConversionFailed { detail } => {
            let mut m = "Return value conversion failed: ".to_owned();
            m.append(detail.as_str());
            let m2 = clone_string(&m);
            (Err(m), Err(m2), None)
        },
        InvokeOutcome::ContractError { code } => {
            let note = error_db.display_error(code);
            let mut m = "The contract returned an error code: ".to_owned();
            let d = crate::decimal::u128_to_dec(code as u128);
            m.append(string_of(d.as_slice()).as_str());
            m.append(
                ". This typically indicates a business logic failure (e.g. `panic!` or `require!`).",
            );
            let m2 = clone_string(&m);
            (Err(m), Err(m2), note)
        },
        InvokeOutcome::Aborted => {
            let m =
                "Contract execution was aborted. This could be due to a trap, budget exhaustion, or an explicit abort call.".to_owned();
            let m2 = clone_string(&m);
            (Err(m), Err(m2), None)
        },
        InvokeOutcome::InternalError { detail } => {
            let mut m = "Invocation failed with internal error: ".to_owned();
            m.append(detail.as_str());
            let m2 = clone_string(&m);
            (Err(m), Err(m2), None)
        },
    }
}

/// The keys of `entries` absent from the map `other`, in entry order.
pub open spec fn keys_absent_from(
    entries: Seq<(String, String)>,
    other: Map<Seq<char>, Seq<char>>,
) -> Seq<Seq<char>>
    decreases entries.len(),
{
    if entries.len() == 0 {
        Seq::empty()
    } else {
        keys_absent_from(entries.drop_last(), other) + if !other.contains_key(
            entries.last().0@,
        ) {
            seq![entries.last().0@]
        } else {
            Seq::empty()
        }
    }
}

/// The keys of `entries` present in `other` with a different value, in
/// entry order.
pub open spec fn keys_changed_in(
    entries: Seq<(String, String)>,
    other: Map<Seq<char>, Seq<char>>,
) -> Seq<Seq<char>>
    decreases entries.len(),
{
    if entries.len() == 0 {
        Seq::empty()
    } else {
        keys_changed_in(entries.drop_last(), other) + if other.contains_key(entries.last().0@)
            && other[entries.last().0@] != entries.last().1@ {
            seq![entries.last().0@]
        } else {
            Seq::empty()
        }
    }
}

/// The classified difference between two storage snapshots.
pub struct StorageDiff {
    pub added: Vec<String>,
    pub removed: Vec<String>,
    pub changed: Vec<String>,
}

/// Diff two storage snapshots: a key is added when absent before, removed
/// when absent after, changed when present on both sides with different
/// values. Orders follow the snapshots' entry orders.
pub fn diff_storage(before: &StrMap<String>, after: &StrMap<String>) -> (r: StorageDiff)
    requires
        before.wf(),
        after.wf(),
    ensures
        r.added@.map_values(|s: String| s@) == keys_absent_from(after.entries@, before@),
        r.removed@.map_values(|s: String| s@) == keys_absent_from(before.entries@, after@),
        r.changed@.map_values(|s: String| s@) == keys_changed_in(before.entries@, after@),
{
    let added = collect_absent(after, before);
    let removed = collect_absent(before, after);
    let changed = collect_changed(before, after);
    StorageDiff { added, removed, changed }
}

/// The keys of `a` that `b` does not hold.
fn collect_absent(a: &StrMap<String>, b: &StrMap<String>) -> (r: Vec<String>)
    requires
        b.wf(),
    ensures
        r@.map_values(|s: String| s@) == keys_absent_from(a.entries@, b@),
{
    let mut r: Vec<String> = Vec::new();
    let mut i: usize = 0;
    proof {
        assert(a.entries@.subrange(0, 0) =~= Seq::<(String, String)>::empty());
        assert(r@.map_values(|s: String| s@) =~= keys_absent_from(
            a.entries@.subrange(0, 0),
            b@,
        ));
    }
    while i < a.entries.len()
        invariant
            i <= a.entries@.len(),
            b.wf(),
            r@.map_values(|s: String| s@) == keys_absent_from(
                a.entries@.subrange(0, i as int),
                b@,
            ),
        decreases a.entries@.len() - i,
    {
        let ghost pre = r@;
        proof {
            let p = a.entries@.subrange(0, i + 1);
            assert(p.drop_last() =~= a.entries@.subrange(0, i as int));
            assert(p.last() == a.entries@[i as int]);
        }
        match b.get(a.entries[i].0.as_str()) {
            None => {
                r.push(clone_string(&a.entries[i].0));
                proof {
                    assert(r@ =~= pre.push(r@.last()));
                    assert(r@.map_values(|s: String| s@) =~= pre.map_values(
                        |s: String| s@,
                    ).push(r@.last()@));
                }
            },
            Some(_) => {
            },
        }
        i += 1;
    }
    proof {
        assert(a.entries@.subrange(0, a.entries@.len() as int) =~= a.entries@);
    }
    r
}

/// The keys of `a` that `b` holds with a different value.
fn collect_changed(a: &StrMap<String>, b: &StrMap<String>) -> (r: Vec<String>)
    requires
        b.wf(),
    ensures
        r@.map_values(|s: String| s@) == keys_changed_in(a.entries@, b@),
{
    let mut r: Vec<String> = Vec::new();
    let mut i: usize = 0;
    proof {
        assert(a.entries@.subrange(0, 0) =~= Seq::<(String, String)>::empty());
        assert(r@.map_values(|s: String| s@) =~= keys_changed_in(
            a.entries@.subrange(0, 0),
            b@,
        ));
    }
    while i < a.entries.len()
        invariant
            i <= a.entries@.len(),
            b.wf(),
            r@.map_values(|s: String| s@) == keys_changed_in(
                a.entries@.subrange(0, i as int),
                b@,
            ),
        decreases a.entries@.len() - i,
    {
        let ghost pre = r@;
        proof {
            let p = a.entries@.subrange(0, i + 1);
            assert(p.drop_last() =~= a.entries@.subrange(0, i as int));
            assert(p.last() == a.entries@[i as int]);
        }
        match b.get(a.entries[i].0.as_str()) {
            Some(v) => {
                let vc = crate::strutil::chars_of(v.as_str());
                let ac = crate::strutil::chars_of(a.entries[i].1.as_str());
                if !crate::strutil::chars_eq(vc.as_slice(), ac.as_slice()) {
                    r.push(clone_string(&a.entries[i].0));
                    proof {
                        assert(r@ =~= pre.push(r@.last()));
                        assert(r@.map_values(|s: String| s@) =~= pre.map_values(
                            |s: String| s@,
                        ).push(r@.last()@));
                    }
                }
            },
            None => {
            },
        }
        i += 1;
    }
    proof {
        assert(a.entries@.subrange(0, a.entries@.len() as int) =~= a.entries@);
    }
    r
}

/// The memory tracker: a baseline and labelled byte snapshots whose levels
/// never decrease — a later phase never reports fewer consumed bytes.
pub struct MemoryTracker {
    pub baseline: u64,
    pub snapshots: Vec<(String, u64)>,
}

impl MemoryTracker {
    /// The level the last snapshot reached, or the baseline.
    pub open spec fn level(&self) -> u64 {
        if self.snapshots@.len() == 0 {
            self.baseline
        } else {
            self.snapshots@.last().1
        }
    }

    /// Levels never decrease from the baseline on.
    pub open spec fn wf(&self) -> bool {
        &&& forall|i: int|
            0 <= i < self.snapshots@.len() ==> self.baseline <= (
            #[trigger] self.snapshots@[i]).1
        &&& forall|i: int, k: int|
            0 <= i < k < self.snapshots@.len() ==> (#[trigger] self.snapshots@[i]).1 <= (
            #[trigger] self.snapshots@[k]).1
    }

    /// Start tracking from a baseline of consumed bytes.
    pub fn new(baseline: u64) -> (r: Self)
        ensures
            r.wf(),
            r.baseline == baseline,
            r.snapshots@.len() == 0,
    {
        MemoryTracker { baseline, snapshots: Vec::new() }
    }

    /// Record a labelled snapshot; a reading below the level reached so far
    /// is clamped up to it, keeping levels monotone.
    pub fn record_snapshot(&mut self, label: &str, bytes: u64)
        requires
            old(self).wf(),
        ensures
            final(self).wf(),
            final(self).baseline == old(self).baseline,
            final(self).snapshots@.len() == old(self).snapshots@.len() + 1,
            final(self).snapshots@.last().0@ == label@,
            final(self).snapshots@.last().1 == (if bytes >= old(self).level() {
                bytes
            } else {
                old(self).level()
            }),
            final(self).snapshots@.drop_last() == old(self).snapshots@,
        decreases 0int,
    {
        let current = if self.snapshots.len() == 0 {
            self.baseline
        } else {
            self.snapshots[self.snapshots.len() - 1].1
        };
        let level = if bytes >= current {
            bytes
        } else {
            current
        };
        let ghost pre = self.snapshots@;
        self.snapshots.push((label.to_owned(), level));
        proof {
            assert(self.snapshots@.drop_last() =~= pre);
        }
    }

    /// The peak level reached.
    pub fn peak(&self) -> (r: u64)
        requires
            self.wf(),
        ensures
            r == self.level(),
            self.baseline <= r,
    {
        if self.snapshots.len() == 0 {
            self.baseline
        } else {
            self.snapshots[self.snapshots.len() - 1].1
        }
    }
}

/// One observed mocked call.
#[derive(Debug)]
pub struct MockCallLogEntry {
    pub contract_id: String,
    pub function: String,
    pub args: Vec<String>,
}

/// The mock registry: responses recorded per contract and function, and the
/// log of calls dispatched so far.
pub struct MockRegistry {
    pub responses: Vec<((String, String), crate::hostval::HostValue)>,
    pub calls: Vec<MockCallLogEntry>,
}

/// The first recorded response for a contract and function.
pub open spec fn mock_lookup(
    s: Seq<((String, String), crate::hostval::HostValue)>,
    contract: Seq<char>,
    function: Seq<char>,
) -> Option<crate::hostval::HostValue>
    decreases s.len(),
{
    if s.len() == 0 {
        None
    } else if s[0].0.0@ == contract && s[0].0.1@ == function {
        Some(s[0].1)
    } else {
        mock_lookup(s.drop_first(), contract, function)
    }
}

impl MockRegistry {
    /// An empty registry.
    pub fn new() -> (r: Self)
        ensures
            r.responses@.len() == 0,
            r.calls@.len() == 0,
    {
        MockRegistry { responses: Vec::new(), calls: Vec::new() }
    }

    /// Record a response for a contract's function.
    pub fn add_response(
        &mut self,
        contract_id: String,
        function: String,
        value: crate::hostval::HostValue,
    )
        ensures
            final(self).responses@ == old(self).responses@.push(
                ((contract_id, function), value),
            ),
            final(self).calls@ == old(self).calls@,
    {
        self.responses.push(((contract_id, function), value));
    }

    /// Dispatch one mocked call: when a response is recorded the call is
    /// appended to the log and the response handed out; otherwise the call
    /// fails and the log stays as it was.
    pub fn dispatch<'a>(
        &'a mut self,
        contract_id: &str,
        function: &str,
        args: Vec<String>,
    ) -> (r: Result<&'a crate::hostval::HostValue, crate::DebuggerError>)
        ensures
            final(self).responses@ == old(self).responses@,
            match r {
                Ok(v) => mock_lookup(old(self).responses@, contract_id@, function@) == Some(
                    *v,
                ) && final(self).calls@.len() == old(self).calls@.len() + 1
                    && final(self).calls@.drop_last() == old(self).calls@
                    && final(self).calls@.last().contract_id@ == contract_id@
                    && final(self).calls@.last().function@ == function@
                    && final(self).calls@.last().args@ == args@,
                Err(e) => mock_lookup(old(self).responses@, contract_id@, function@) is None
                    && final(self).calls@ == old(self).calls@ && (match e {
                    crate::DebuggerError::MockNotFound(c, f) => c@ == contract_id@ && f@
                        == function@,
                    _ => false,
                }),
            },
    {
        let cc = crate::strutil::chars_of(contract_id);
        let fc = crate::strutil::chars_of(function);
        let mut i: usize = 0;
        proof {
            assert(self.responses@.skip(0) =~= self.responses@);
        }
        while i < self.responses.len()
            invariant
                i <= self.responses@.len(),
                cc@ == contract_id@,
                fc@ == function@,
                self.responses@ == old(self).responses@,
                self.calls@ == old(self).calls@,
                mock_lookup(self.responses@, contract_id@, function@) == mock_lookup(
                    self.responses@.skip(i as int),
                    contract_id@,
                    function@,
                ),
            decreases self.responses@.len() - i,
        {
            proof {
                assert(self.responses@.skip(i as int)[0] == self.responses@[i as int]);
                assert(self.responses@.skip(i as int).drop_first() =~= self.responses@.skip(
                    i + 1,
                ));
            }
            let kc = crate::strutil::chars_of(self.responses[i].0.0.as_str());
            let gc = crate::strutil::chars_of(self.responses[i].0.1.as_str());
            if crate::strutil::chars_eq(kc.as_slice(), cc.as_slice()) && crate::strutil::chars_eq(
                gc.as_slice(),
                fc.as_slice(),
            ) {
                let ghost pre = self.calls@;
                self.calls.push(
                    MockCallLogEntry {
                        contract_id: contract_id.to_owned(),
                        function: function.to_owned(),
                        args,
                    },
                );
                proof {
                    assert(self.calls@.drop_last() =~= pre);
                }
                return Ok(&self.responses[i].1);
            }
            i += 1;
        }
        proof {
            assert(self.responses@.skip(self.responses@.len() as int) =~= Seq::<
                ((String, String), crate::hostval::HostValue),
            >::empty());
        }
        Err(
            crate::DebuggerError::MockNotFound(contract_id.to_owned(), function.to_owned()),
        )
    }

    /// The call log so far.
    pub fn call_count(&self) -> (r: usize)
        ensures
            r == self.calls@.len(),
    {
        self.calls.len()
    }
}

/// Take a storage snapshot of the given state: the snapshot owns an equal
/// copy, independent of later changes.
pub fn snapshot_storage(storage: &StrMap<String>) -> (r: StorageSnapshot)
    requires
        storage.wf(),
    ensures
        r.storage.wf(),
        r.storage@ =~= storage@,
{
    let mut copy: Vec<(String, String)> = Vec::new();
    let mut i: usize = 0;
    while i < storage.entries.len()
        invariant
            i <= storage.entries@.len(),
            copy@.len() == i,
            forall|j: int|
                0 <= j < i ==> (#[trigger] copy@[j]).0@ == storage.entries@[j].0@
                    && copy@[j].1@ == storage.entries@[j].1@,
        decreases storage.entries@.len() - i,
    {
        copy.push(
            (clone_string(&storage.entries[i].0), clone_string(&storage.entries[i].1)),
        );
        i += 1;
    }
    proof {
        lemma_entries_map_congruent(copy@, storage.entries@);
    }
    StorageSnapshot { storage: StrMap { entries: copy } }
}

/// Entry lists with equal key and value texts denote the same map.
proof fn lemma_entries_map_congruent(a: Seq<(String, String)>, b: Seq<(String, String)>)
    requires
        a.len() == b.len(),
        forall|j: int|
            0 <= j < a.len() ==> (#[trigger] a[j]).0@ == b[j].0@ && a[j].1@ == b[j].1@,
    ensures
        entries_map(a) =~= entries_map(b),
        crate::kv::unique_keys(b) ==> crate::kv::unique_keys(a),
    decreases a.len(),
{
    if a.len() > 0 {
        assert(forall|j: int|
            0 <= j < a.drop_last().len() ==> (#[trigger] a.drop_last()[j]).0@
                == b.drop_last()[j].0@ && a.drop_last()[j].1@ == b.drop_last()[j].1@);
        lemma_entries_map_congruent(a.drop_last(), b.drop_last());
        assert(a.last().0@ == b.last().0@ && a.last().1@ == b.last().1@);
        if crate::kv::unique_keys(b) {
            assert forall|p: int, q: int| 0 <= p < q < a.len() implies (#[trigger] a[p]).0@
                != (#[trigger] a[q]).0@ by {
                assert(b[p].0@ != b[q].0@);
            }
        }
    }
}

/// Restore a snapshot: afterwards the storage holds exactly the keys and
/// values the snapshot saw, whatever changed in between — a dry run leaves
/// no trace.
pub fn restore_storage(storage: &mut StrMap<String>, snap: &StorageSnapshot)
    requires
        snap.storage.wf(),
    ensures
        final(storage).wf(),
        final(storage)@ =~= snap.storage@,
{
    let copy = snapshot_storage(&snap.storage);
    *storage = copy.storage;
}

/// Check that the binary exports `function`, as the executor does before
/// parsing arguments. Fails with the binary's own error when the binary
/// cannot be read, and with `InvalidFunction` when the name is not among
/// the exported functions.
pub fn check_function_exists(wasm: &[u8], function: &str) -> (r: Result<
    (),
    crate::DebuggerError,
>)
    ensures
        match r {
            Ok(u) => crate::wasm::export_names_spec(wasm@) matches Some(names)
                && names.contains(function@),
            Err(e) => match e {
                crate::DebuggerError::InvalidBinary => crate::wasm::export_names_spec(wasm@)
                    is None,
                crate::DebuggerError::InvalidFunction(f) => f@ == function@
                    && (crate::wasm::export_names_spec(wasm@) matches Some(names)
                    && !names.contains(function@)),
                _ => false,
            },
        },
{
    let names = match crate::wasm::parse_functions(wasm) {
        Ok(names) => names,
        Err(e) => {
            return Err(e);
        },
    };
    let fc = crate::strutil::chars_of(function);
    let mut i: usize = 0;
    while i < names.len()
        invariant
            i <= names@.len(),
            fc@ == function@,
            crate::wasm::export_names_spec(wasm@) == Some(names@.map_values(|s: String| s@)),
            forall|j: int| 0 <= j < i ==> (#[trigger] names@[j])@ != function@,
        decreases names@.len() - i,
    {
        let nc = crate::strutil::chars_of(names[i].as_str());
        if crate::strutil::chars_eq(nc.as_slice(), fc.as_slice()) {
            proof {
                let ghost nv = names@.map_values(|s: String| s@);
                let ghost ens = crate::wasm::export_names_spec(wasm@)->0;
                assert(nv.len() == ens.len());
                assert forall|k2: int| 0 <= k2 < nv.len() implies nv[k2] == ens[k2] by {
                    assert(nv[k2] == names@[k2]@);
                    assert(ens[k2] == names@[k2]@);
                }
                assert(nv =~= ens);
                assert(ens[i as int] == function@);
                assert(ens.contains(function@));
            }
            return Ok(());
        }
        i += 1;
    }
    proof {
        let ghost nv = names@.map_values(|s: String| s@);
        let ghost ens = crate::wasm::export_names_spec(wasm@)->0;
        assert(nv.len() == ens.len());
        assert forall|k2: int| 0 <= k2 < nv.len() implies nv[k2] == ens[k2] by {
            assert(nv[k2] == names@[k2]@);
            assert(ens[k2] == names@[k2]@);
        }
        assert(nv =~= ens);
        assert forall|k: int| 0 <= k < nv.len() implies #[trigger] nv[k] != function@ by {
            assert(names@[k]@ != function@);
        }
        if ens.contains(function@) {
            let k = choose|k: int| 0 <= k < ens.len() && ens[k] == function@;
            assert(nv[k] == function@);
            assert(false);
        }
    }
    Err(crate::DebuggerError::InvalidFunction(function.to_owned()))
}

/// A character a generated-address token may hold.
pub open spec fn is_token_char(c: char) -> bool {
    ('a' <= c && c <= 'z') || ('A' <= c && c <= 'Z') || ('0' <= c && c <= '9') || c == '_'
}

/// `[i, j)` is a maximal token run in `s`.
pub open spec fn token_at(s: Seq<char>, i: int, j: int) -> bool {
    &&& 0 <= i < j <= s.len()
    &&& forall|k: int| i <= k < j ==> is_token_char(#[trigger] s[k])
    &&& (i == 0 || !is_token_char(s[i - 1]))
    &&& (j == s.len() || !is_token_char(s[j]))
}

/// `[i, j)` is a token run that looks like a generated address: at least
/// ten characters opening with `G` or `C`.
pub open spec fn strkey_at(s: Seq<char>, i: int, j: int) -> bool {
    token_at(s, i, j) && j - i >= 10 && (s[i] == 'G' || s[i] == 'C')
}

/// The character may appear in a token.
fn token_char(c: char) -> (r: bool)
    ensures
        r == is_token_char(c),
{
    ('a' <= c && c <= 'z') || ('A' <= c && c <= 'Z') || ('0' <= c && c <= '9') || c == '_'
}

/// The first token of a debug rendering that looks like a generated
/// address: at least ten token characters opening with `G` or `C`,
/// bordered by non-token characters.
pub fn extract_strkey_token(s: &str) -> (r: Option<String>)
    ensures
        match r {
            Some(t) => exists|i: int, j: int|
                #[trigger] strkey_at(s@, i, j) && t@ == s@.subrange(i, j) && (forall|
                    i2: int,
                    j2: int,
                |
                    strkey_at(s@, i2, j2) ==> i <= i2),
            None => forall|i: int, j: int| !#[trigger] strkey_at(s@, i, j),
        },
{
    let cs = crate::strutil::chars_of(s);
    let n = cs.len();
    let mut i: usize = 0;
    while i < n
        invariant
            i <= n,
            n == s@.len(),
            cs@ == s@,
            forall|i2: int, j2: int| #[trigger] strkey_at(s@, i2, j2) ==> i2 >= i,
            i >= n || i == 0 || !is_token_char(s@[i - 1]) || !is_token_char(s@[i as int]),
        decreases n - i,
    {
        if !token_char(cs[i]) {
            proof {
                assert forall|i2: int, j2: int| #[trigger] strkey_at(s@, i2, j2) implies i2 >= i
                    + 1 by {
                    if i2 == i {
                        assert(is_token_char(s@[i as int]));
                    }
                }
            }
            i += 1;
        } else {
            let start = i;
            let mut j = i;
            while j < n && token_char(cs[j])
                invariant
                    start <= j <= n,
                    n == s@.len(),
                    cs@ == s@,
                    forall|k: int| start <= k < j ==> is_token_char(#[trigger] s@[k]),
                decreases n - j,
            {
                j += 1;
            }
            proof {
                assert(start == 0 || !is_token_char(s@[start - 1]));
                assert(j == n || !is_token_char(s@[j as int]));
            }
            if j - start >= 10 && (cs[start] == 'G' || cs[start] == 'C') {
                proof {
                    assert(token_at(s@, start as int, j as int));
                    assert(strkey_at(s@, start as int, j as int));
                }
                let token = vstd::slice::slice_subrange(cs.as_slice(), start, j);
                proof {
                    assert(token@ =~= s@.subrange(start as int, j as int));
                }
                return Some(string_of(token));
            }
            proof {
                assert forall|i2: int, j2: int| #[trigger] strkey_at(s@, i2, j2) implies i2
                    >= j by {
                    if i2 < j {
                        assert(i2 >= start);
                        if i2 > start {
                            assert(is_token_char(s@[i2 - 1]));
                            assert(false);
                        } else {
                            if j2 < j {
                                assert(is_token_char(s@[j2]));
                                assert(false);
                            }
                            if j2 > j {
                                assert(j < s@.len());
                                assert(is_token_char(s@[j as int]));
                                assert(false);
                            }
                            assert(j2 == j);
                            assert(!strkey_at(s@, start as int, j as int));
                            assert(false);
                        }
                    }
                }
            }
            i = j;
        }
    }
    proof {
        assert forall|i2: int, j2: int| !#[trigger] strkey_at(s@, i2, j2) by {
            if strkey_at(s@, i2, j2) {
                assert(i2 >= n && i2 < j2 <= s@.len());
            }
        }
    }
    None
}

/// The error text reading a mock specification raises, if any: the text
/// must split on its first `:` and the first `=` after it, the prefix must
/// be an address, the middle a symbol, and the tail a JSON value the
/// argument parser accepts.
pub open spec fn mock_spec_err(s: Seq<char>) -> Option<Seq<char>> {
    match crate::strutil::find_sub_spec(s, seq![':']) {
        None => Some("Mock spec must look like contract:function=value"@),
        Some(i) => match crate::strutil::find_sub_spec(s.skip(i + 1), seq!['=']) {
            None => Some("Mock spec must look like contract:function=value"@),
            Some(e) => if !crate::hostval::address_wf(s.subrange(0, i)) {
                Some("Invalid contract id in mock spec"@)
            } else if !crate::hostval::symbol_wf(s.subrange(i + 1, i + 1 + e)) {
                Some("Invalid function name in mock spec"@)
            } else {
                match crate::json::json_parse_of(s.skip(i + 1 + e + 1)) {
                    None => Some("Invalid JSON in mock spec"@),
                    Some(doc) => match crate::hostval::parse_spec(doc, "mock"@) {
                        Err(m) => Some(m),
                        Ok(h) => None,
                    },
                }
            },
        },
    }
}

/// A mock specification `contract:function=value` read apart: the address,
/// the function symbol, and the parsed response value. Succeeds exactly
/// when no piece is rejected.
pub fn parse_mock_spec(spec: &str) -> (r: Result<
    (String, String, crate::hostval::HostValue),
    crate::DebuggerError,
>)
    ensures
        match r {
            Ok(p) => {
                &&& mock_spec_err(spec@) is None
                &&& crate::hostval::address_wf(p.0@)
                &&& crate::hostval::symbol_wf(p.1@)
                &&& crate::strutil::find_sub_spec(spec@, seq![':']) matches Some(i) && p.0@
                    == spec@.subrange(0, i)
                &&& exists|k: int|
                    {
                        let i = crate::strutil::find_sub_spec(spec@, seq![':'])->0;
                        &&& i < k < spec@.len()
                        &&& #[trigger] spec@[k] == '='
                        &&& p.1@ == spec@.subrange(i + 1, k)
                        &&& exists|doc: JsonValue|
                            #[trigger] crate::json::json_parse_of(spec@.skip(k + 1)) == Some(
                                doc,
                            ) && crate::hostval::parse_spec(doc, "mock"@) == Ok::<
                                crate::hostval::HostValueView,
                                Seq<char>,
                            >(crate::hostval::host_view(p.2))
                    }
            },
            Err(e) => mock_spec_err(spec@) is Some && (match e {
                crate::DebuggerError::InvalidArguments(m) => m@ == mock_spec_err(spec@)->0,
                _ => false,
            }),
        },
{
    let cs = crate::strutil::chars_of(spec);
    let mut colon: Vec<char> = Vec::new();
    colon.push(':');
    let mut eq: Vec<char> = Vec::new();
    eq.push('=');
    let ci = match crate::strutil::find_sub(cs.as_slice(), colon.as_slice()) {
        Some(i) => i,
        None => {
            return Err(
                crate::DebuggerError::InvalidArguments(
                    "Mock spec must look like contract:function=value".to_owned(),
                ),
            );
        },
    };
    let n = cs.len();
    proof {
        crate::strutil::lemma_find_sub_props(spec@, seq![':']);
        assert(spec@.subrange(ci as int, ci + 1)[0] == spec@[ci as int]);
        assert(ci + 1 <= n);
    }
    let rest = vstd::slice::slice_subrange(cs.as_slice(), ci + 1, n);
    proof {
        assert(rest@ =~= spec@.skip(ci + 1));
    }
    let m = rest.len();
    let ei = match crate::strutil::find_sub(rest, eq.as_slice()) {
        Some(i) => i,
        None => {
            return Err(
                crate::DebuggerError::InvalidArguments(
                    "Mock spec must look like contract:function=value".to_owned(),
                ),
            );
        },
    };
    proof {
        crate::strutil::lemma_find_sub_props(rest@, seq!['=']);
        assert(rest@.subrange(ei as int, ei + 1)[0] == rest@[ei as int]);
        assert(rest@[ei as int] == spec@[ci + 1 + ei]);
    }
    let contract = vstd::slice::slice_subrange(cs.as_slice(), 0, ci);
    let function = vstd::slice::slice_subrange(rest, 0, ei);
    proof {
        assert(contract@ =~= spec@.subrange(0, ci as int));
        assert(function@ =~= spec@.subrange(ci + 1, ci + 1 + ei)) by {
            assert(function@ =~= rest@.subrange(0, ei as int));
            assert forall|q: int| 0 <= q < ei implies rest@.subrange(0, ei as int)[q]
                == spec@.subrange(ci + 1, ci + 1 + ei)[q] by {
                assert(rest@[q] == spec@[ci + 1 + q]);
            }
        }
    }
    let contract_s = string_of(contract);
    let function_s = string_of(function);
    if !crate::hostval::is_address(contract_s.as_str()) {
        return Err(
            crate::DebuggerError::InvalidArguments(
                "Invalid contract id in mock spec".to_owned(),
            ),
        );
    }
    if !crate::hostval::is_symbol(function_s.as_str()) {
        return Err(
            crate::DebuggerError::InvalidArguments(
                "Invalid function name in mock spec".to_owned(),
            ),
        );
    }
    proof {
        assert(ei + 1 <= m);
    }
    let value_part = vstd::slice::slice_subrange(rest, ei + 1, m);
    proof {
        assert(value_part@ =~= spec@.skip(ci + 1 + ei + 1)) by {
            assert(value_part@ =~= rest@.skip(ei + 1));
            assert forall|q: int| 0 <= q < rest@.skip(ei + 1).len() implies #[trigger] rest@.skip(
                ei + 1,
            )[q] == spec@.skip(ci + 1 + ei + 1)[q] by {
                assert(rest@.skip(ei + 1)[q] == rest@[ei + 1 + q]);
                assert(rest@[ei + 1 + q] == spec@[ci + 1 + ei + 1 + q]);
            }
        }
        assert(value_part@ == spec@.skip(ci + 1 + ei + 1));
    }
    let value_s = string_of(value_part);
    let doc = match crate::json::json_parse(value_s.as_str()) {
        Some(doc) => doc,
        None => {
            return Err(
                crate::DebuggerError::InvalidArguments("Invalid JSON in mock spec".to_owned()),
            );
        },
    };
    let path = crate::strutil::chars_of("mock");
    let value = match crate::hostval::parse_value(&doc, path.as_slice()) {
        Ok(v) => v,
        Err(e) => {
            proof {
                assert(mock_spec_err(spec@) is Some);
            }
            return Err(e);
        },
    };
    proof {
        let k = ci + 1 + ei;
        assert(spec@[ci as int] == ':');
        assert(spec@[k] == '=');
        assert(crate::json::json_parse_of(spec@.skip(k + 1)) == Some(doc));
        assert(crate::hostval::parse_spec(doc, "mock"@) == Ok::<
            crate::hostval::HostValueView,
            Seq<char>,
        >(crate::hostval::host_view(value)));
    }
    Ok((contract_s, function_s, value))
}

} // verus!
