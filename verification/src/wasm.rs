//! Reader for the guest bytecode container: header check, section walk, and
//! extraction of exported function names and signatures from the type,
//! function and export sections.

use vstd::arithmetic::power2::lemma2_to64;
use vstd::arithmetic::power2::pow2;
use vstd::prelude::*;

use crate::upgrade::WasmType;

verus! {

/// The bytes open with the canonical magic-plus-version marker.
pub open spec fn has_magic(b: Seq<u8>) -> bool {
    b.len() >= 8 && b[0] == 0x00 && b[1] == 0x61 && b[2] == 0x73 && b[3] == 0x6d && b[4] == 0x01
        && b[5] == 0x00 && b[6] == 0x00 && b[7] == 0x00
}

/// The bytes open with the canonical marker.
pub fn check_magic(b: &[u8]) -> (r: bool)
    ensures
        r == has_magic(b@),
{
    b.len() >= 8 && b[0] == 0x00 && b[1] == 0x61 && b[2] == 0x73 && b[3] == 0x6d && b[4] == 0x01
        && b[5] == 0x00 && b[6] == 0x00 && b[7] == 0x00
}

/// A 32-bit unsigned integer in little-endian base-128 groups, starting at
/// `pos` with the bit weight `shift` already consumed: the value and the
/// position after it, or nothing when truncated, overlong or too large.
pub open spec fn leb_rec(b: Seq<u8>, pos: int, shift: nat) -> Option<(nat, int)>
    decreases 35 - shift,
        when shift <= 28
{
    if pos < 0 || pos >= b.len() {
        None
    } else {
        let byte = b[pos];
        let low = (byte % 0x80) as nat;
        if byte < 0x80 {
            Some((low * pow2(shift), pos + 1))
        } else if shift >= 28 {
            None
        } else {
            match leb_rec(b, pos + 1, (shift + 7) as nat) {
                None => None,
                Some((v, np)) => Some((low * pow2(shift) + v, np)),
            }
        }
    }
}

/// The 32-bit unsigned integer at `pos`: its value and the position after.
pub open spec fn leb_at(b: Seq<u8>, pos: int) -> Option<(nat, int)> {
    match leb_rec(b, pos, 0) {
        None => None,
        Some((v, np)) => if v < 0x1_0000_0000 {
            Some((v, np))
        } else {
            None
        },
    }
}

/// A decoded group advances the position and stays within the bytes.
pub proof fn lemma_leb_rec_bounds(b: Seq<u8>, pos: int, shift: nat)
    requires
        shift <= 28,
        shift % 7 == 0,
    ensures
        match leb_rec(b, pos, shift) {
            Some((v, np)) => pos < np <= b.len(),
            None => true,
        },
    decreases 35 - shift,
{
    if 0 <= pos < b.len() {
        let byte = b[pos];
        if byte >= 0x80 && shift < 28 {
            lemma_leb_rec_bounds(b, pos + 1, (shift + 7) as nat);
        }
    }
}

/// The largest value the groups from weight `shift` can encode.
pub open spec fn leb_max(shift: nat) -> nat
    decreases if shift > 28 { 0 } else { 35 - shift } when true
{
    if shift > 28 {
        0
    } else {
        0x7f * pow2(shift) + leb_max((shift + 7) as nat)
    }
}

/// Concrete bounds for the weights the decoder uses.
pub proof fn lemma_leb_max_bound(shift: nat)
    requires
        shift <= 28,
        shift % 7 == 0,
    ensures
        leb_max(shift) < 0x10_0000_0000,
{
    lemma2_to64();
    assert(leb_max(35) == 0);
    assert(leb_max(28) == 0x7f * 0x1000_0000 + leb_max(35));
    assert(leb_max(21) == 0x7f * 0x20_0000 + leb_max(28));
    assert(leb_max(14) == 0x7f * 0x4000 + leb_max(21));
    assert(leb_max(7) == 0x7f * 0x80 + leb_max(14));
    assert(leb_max(0) == 0x7f * 1 + leb_max(7));
    assert(shift == 0 || shift == 7 || shift == 14 || shift == 21 || shift == 28);
}

/// The decoded value is bounded by the weights still available.
pub proof fn lemma_leb_rec_value(b: Seq<u8>, pos: int, shift: nat)
    requires
        shift <= 28,
        shift % 7 == 0,
    ensures
        match leb_rec(b, pos, shift) {
            Some((v, np)) => v <= leb_max(shift),
            None => true,
        },
    decreases 35 - shift,
{
    lemma2_to64();
    if 0 <= pos < b.len() {
        let byte = b[pos];
        let low = (byte % 0x80) as nat;
        assert(low * pow2(shift) <= 0x7f * pow2(shift)) by (nonlinear_arith)
            requires
                low <= 0x7f,
                pow2(shift) >= 0,
        ;
        if byte < 0x80 {
            vstd::arithmetic::power2::lemma_pow2_pos(shift);
        } else if shift < 28 {
            lemma_leb_rec_value(b, pos + 1, (shift + 7) as nat);
        }
    }
}

/// Decode the base-128 groups of a 32-bit integer.
fn leb_rec_exec(b: &[u8], pos: usize, shift: u32) -> (r: Option<(u64, usize)>)
    requires
        shift <= 28,
        shift % 7 == 0,
    ensures
        match r {
            Some((v, np)) => leb_rec(b@, pos as int, shift as nat) == Some((v as nat, np as int))
                && pos < np <= b@.len(),
            None => leb_rec(b@, pos as int, shift as nat) is None,
        },
    decreases 35 - shift,
{
    proof {
        lemma2_to64();
        lemma_leb_rec_bounds(b@, pos as int, shift as nat);
        lemma_leb_rec_value(b@, pos as int, shift as nat);
        lemma_leb_max_bound(shift as nat);
    }
    if pos >= b.len() {
        return None;
    }
    let byte = b[pos];
    let low: u64 = (byte % 0x80) as u64;
    let weight: u64 = if shift == 0 {
        1
    } else if shift == 7 {
        0x80
    } else if shift == 14 {
        0x4000
    } else if shift == 21 {
        0x20_0000
    } else {
        0x1000_0000
    };
    proof {
        assert(weight == pow2(shift as nat));
    }
    if byte < 0x80 {
        proof {
            assert(low * weight <= 0x7f * 0x1000_0000) by (nonlinear_arith)
                requires
                    low <= 0x7f,
                    weight <= 0x1000_0000,
            ;
        }
        Some((low * weight, pos + 1))
    } else if shift >= 28 {
        None
    } else {
        match leb_rec_exec(b, pos + 1, shift + 7) {
            None => None,
            Some((v, np)) => {
                proof {
                    lemma_leb_max_bound((shift + 7) as nat);
                    lemma_leb_rec_value(b@, pos + 1, (shift + 7) as nat);
                    assert(low * weight <= 0x7f * 0x1000_0000) by (nonlinear_arith)
                        requires
                            low <= 0x7f,
                            weight <= 0x1000_0000,
                    ;
                    assert(v as nat <= leb_max((shift + 7) as nat));
                }
                Some((low * weight + v, np))
            },
        }
    }
}

/// The 32-bit unsigned integer at `pos` and the position after it.
pub fn leb_u32(b: &[u8], pos: usize) -> (r: Option<(u32, usize)>)
    ensures
        match r {
            Some((v, np)) => leb_at(b@, pos as int) == Some((v as nat, np as int)) && pos < np
                <= b@.len(),
            None => leb_at(b@, pos as int) is None,
        },
{
    match leb_rec_exec(b, pos, 0) {
        None => None,
        Some((v, np)) => {
            if v < 0x1_0000_0000 {
                Some((v as u32, np))
            } else {
                None
            }
        },
    }
}

/// The payload bounds of the first section with id `id`, scanning from
/// `pos`: the outer `None` means a malformed section chain, the inner `None`
/// that no such section exists.
pub open spec fn find_section_spec(b: Seq<u8>, pos: int, id: u8) -> Option<Option<(int, int)>>
    decreases b.len() - pos,
        when 0 <= pos <= b.len()
{
    if pos < 0 {
        None
    } else if pos >= b.len() {
        Some(None)
    } else {
        match leb_at(b, pos + 1) {
            None => None,
            Some((size, p2)) => if p2 + size > b.len() || p2 + size <= pos {
                None
            } else if b[pos] == id {
                Some(Some((p2, p2 + size)))
            } else {
                find_section_spec(b, p2 + size, id)
            },
        }
    }
}

/// Find the first section with id `id` from `pos`.
pub fn find_section(b: &[u8], pos: usize, id: u8) -> (r: Option<Option<(usize, usize)>>)
    requires
        pos <= b@.len(),
    ensures
        match r {
            Some(Some((s, e))) => find_section_spec(b@, pos as int, id) == Some(
                Some((s as int, e as int)),
            ) && s <= e <= b@.len(),
            Some(None) => find_section_spec(b@, pos as int, id) == Some(None::<(int, int)>),
            None => find_section_spec(b@, pos as int, id) is None,
        },
    decreases b@.len() - pos,
{
    if pos >= b.len() {
        return Some(None);
    }
    match leb_u32(b, pos + 1) {
        None => None,
        Some((size, p2)) => {
            if size as usize > b.len() || p2 > b.len() - size as usize {
                proof {
                    assert(p2 + size as nat > b@.len());
                }
                return None;
            }
            let section_end = p2 + size as usize;
            if section_end <= pos {
                return None;
            }
            if b[pos] == id {
                Some(Some((p2, section_end)))
            } else {
                find_section(b, section_end, id)
            }
        },
    }
}

/// The value type a tag byte denotes; unknown tags are `Unknown`.
pub open spec fn valtype_of(byte: u8) -> WasmType {
    if byte == 0x7f {
        WasmType::I32
    } else if byte == 0x7e {
        WasmType::I64
    } else if byte == 0x7d {
        WasmType::F32
    } else if byte == 0x7c {
        WasmType::F64
    } else if byte == 0x7b {
        WasmType::V128
    } else if byte == 0x70 {
        WasmType::FuncRef
    } else if byte == 0x6f {
        WasmType::ExternRef
    } else {
        WasmType::Unknown
    }
}

/// The value type a tag byte denotes.
pub fn parse_valtype(byte: u8) -> (r: WasmType)
    ensures
        r == valtype_of(byte),
{
    if byte == 0x7f {
        WasmType::I32
    } else if byte == 0x7e {
        WasmType::I64
    } else if byte == 0x7d {
        WasmType::F32
    } else if byte == 0x7c {
        WasmType::F64
    } else if byte == 0x7b {
        WasmType::V128
    } else if byte == 0x70 {
        WasmType::FuncRef
    } else if byte == 0x6f {
        WasmType::ExternRef
    } else {
        WasmType::Unknown
    }
}

/// `n` value types, one tag byte each, from `pos`.
pub open spec fn valtypes_at(b: Seq<u8>, pos: int, n: nat) -> Option<(Seq<WasmType>, int)>
    decreases n,
{
    if n == 0 {
        Some((Seq::empty(), pos))
    } else if pos < 0 || pos >= b.len() {
        None
    } else {
        match valtypes_at(b, pos + 1, (n - 1) as nat) {
            None => None,
            Some((ts, np)) => Some((seq![valtype_of(b[pos])] + ts, np)),
        }
    }
}

/// Read `n` value types from `pos`.
fn parse_valtypes(b: &[u8], pos: usize, n: u32) -> (r: Option<(Vec<WasmType>, usize)>)
    requires
        pos <= b@.len(),
    ensures
        match r {
            Some((ts, np)) => valtypes_at(b@, pos as int, n as nat) == Some((ts@, np as int))
                && pos <= np <= b@.len(),
            None => valtypes_at(b@, pos as int, n as nat) is None,
        },
{
    let mut ts: Vec<WasmType> = Vec::new();
    let mut p = pos;
    let mut i: u32 = 0;
    while i < n
        invariant
            pos <= p <= b@.len(),
            i <= n,
            ts@.len() == i,
            match valtypes_at(b@, p as int, (n - i) as nat) {
                Some((rest, np)) => valtypes_at(b@, pos as int, n as nat) == Some(
                    (ts@ + rest, np),
                ),
                None => valtypes_at(b@, pos as int, n as nat) is None,
            },
        decreases n - i,
    {
        if p >= b.len() {
            return None;
        }
        let t = parse_valtype(b[p]);
        proof {
            let rem = (n - i) as nat;
            assert(valtypes_at(b@, p as int, rem) == (match valtypes_at(
                b@,
                p + 1,
                (rem - 1) as nat,
            ) {
                None => None::<(Seq<WasmType>, int)>,
                Some((rest, np)) => Some((seq![valtype_of(b@[p as int])] + rest, np)),
            }));
            if valtypes_at(b@, p + 1, (rem - 1) as nat) is Some {
                let (rest, np) = valtypes_at(b@, p + 1, (rem - 1) as nat)->0;
                assert(ts@ + (seq![valtype_of(b@[p as int])] + rest) =~= ts@.push(t) + rest);
            }
        }
        ts.push(t);
        p += 1;
        i += 1;
    }
    proof {
        assert(valtypes_at(b@, p as int, 0) == Some((Seq::<WasmType>::empty(), p as int)));
        assert(ts@ + Seq::<WasmType>::empty() =~= ts@);
    }
    Some((ts, p))
}

/// One function type at `pos`: tag `0x60`, parameter types, result types.
pub open spec fn functype_at(b: Seq<u8>, pos: int) -> Option<
    ((Seq<WasmType>, Seq<WasmType>), int),
> {
    if pos < 0 || pos >= b.len() || b[pos] != 0x60 {
        None
    } else {
        match leb_at(b, pos + 1) {
            None => None,
            Some((pn, p1)) => match valtypes_at(b, p1, pn) {
                None => None,
                Some((ps, p2)) => match leb_at(b, p2) {
                    None => None,
                    Some((rn, p3)) => match valtypes_at(b, p3, rn) {
                        None => None,
                        Some((rs, p4)) => Some(((ps, rs), p4)),
                    },
                },
            },
        }
    }
}

/// Read one function type at `pos`.
fn parse_functype(b: &[u8], pos: usize) -> (r: Option<((Vec<WasmType>, Vec<WasmType>), usize)>)
    ensures
        match r {
            Some((ft, np)) => functype_at(b@, pos as int) == Some(((ft.0@, ft.1@), np as int))
                && np <= b@.len(),
            None => functype_at(b@, pos as int) is None,
        },
{
    if pos >= b.len() {
        return None;
    }
    if b[pos] != 0x60 {
        return None;
    }
    match leb_u32(b, pos + 1) {
        None => None,
        Some((pn, p1)) => match parse_valtypes(b, p1, pn) {
            None => None,
            Some((ps, p2)) => match leb_u32(b, p2) {
                None => None,
                Some((rn, p3)) => match parse_valtypes(b, p3, rn) {
                    None => None,
                    Some((rs, p4)) => Some(((ps, rs), p4)),
                },
            },
        },
    }
}

/// `n` function types from `pos`.
pub open spec fn functypes_at(b: Seq<u8>, pos: int, n: nat) -> Option<
    (Seq<(Seq<WasmType>, Seq<WasmType>)>, int),
>
    decreases n,
{
    if n == 0 {
        Some((Seq::empty(), pos))
    } else {
        match functype_at(b, pos) {
            None => None,
            Some((ft, np)) => match functypes_at(b, np, (n - 1) as nat) {
                None => None,
                Some((fts, np2)) => Some((seq![ft] + fts, np2)),
            },
        }
    }
}

/// Read `n` function types from `pos`.
fn parse_functypes(b: &[u8], pos: usize, n: u32) -> (r: Option<
    (Vec<(Vec<WasmType>, Vec<WasmType>)>, usize),
>)
    requires
        pos <= b@.len(),
    ensures
        match r {
            Some((fts, np)) => functypes_at(b@, pos as int, n as nat) == Some(
                (fts@.map_values(|ft: (Vec<WasmType>, Vec<WasmType>)| (ft.0@, ft.1@)), np as int),
            ) && np <= b@.len(),
            None => functypes_at(b@, pos as int, n as nat) is None,
        },
{
    let mut fts: Vec<(Vec<WasmType>, Vec<WasmType>)> = Vec::new();
    let mut p = pos;
    let mut i: u32 = 0;
    let ghost m = |ft: (Vec<WasmType>, Vec<WasmType>)| (ft.0@, ft.1@);
    while i < n
        invariant
            i <= n,
            p <= b@.len(),
            fts@.len() == i,
            m == (|ft: (Vec<WasmType>, Vec<WasmType>)| (ft.0@, ft.1@)),
            match functypes_at(b@, p as int, (n - i) as nat) {
                Some((rest, np)) => functypes_at(b@, pos as int, n as nat) == Some(
                    (fts@.map_values(m) + rest, np),
                ),
                None => functypes_at(b@, pos as int, n as nat) is None,
            },
        decreases n - i,
    {
        match parse_functype(b, p) {
            None => {
                return None;
            },
            Some((ft, np)) => {
                proof {
                    let rem = (n - i) as nat;
                    if functypes_at(b@, np as int, (rem - 1) as nat) is Some {
                        let (rest, np2) = functypes_at(b@, np as int, (rem - 1) as nat)->0;
                        assert(fts@.map_values(m) + (seq![(ft.0@, ft.1@)] + rest)
                            =~= fts@.push(ft).map_values(m) + rest) by {
                            assert(fts@.push(ft).map_values(m) =~= fts@.map_values(m).push(
                                (ft.0@, ft.1@),
                            ));
                        }
                    }
                }
                fts.push(ft);
                p = np;
            },
        }
        i += 1;
    }
    proof {
        assert(functypes_at(b@, p as int, 0) == Some(
            (Seq::<(Seq<WasmType>, Seq<WasmType>)>::empty(), p as int),
        ));
        assert(fts@.map_values(m) + Seq::<(Seq<WasmType>, Seq<WasmType>)>::empty()
            =~= fts@.map_values(m));
    }
    Some((fts, p))
}

/// `n` type indices from `pos`.
pub open spec fn funcidxs_at(b: Seq<u8>, pos: int, n: nat) -> Option<(Seq<nat>, int)>
    decreases n,
{
    if n == 0 {
        Some((Seq::empty(), pos))
    } else {
        match leb_at(b, pos) {
            None => None,
            Some((v, np)) => match funcidxs_at(b, np, (n - 1) as nat) {
                None => None,
                Some((vs, np2)) => Some((seq![v] + vs, np2)),
            },
        }
    }
}

/// Read `n` type indices from `pos`.
fn parse_funcidxs(b: &[u8], pos: usize, n: u32) -> (r: Option<(Vec<u32>, usize)>)
    requires
        pos <= b@.len(),
    ensures
        match r {
            Some((vs, np)) => funcidxs_at(b@, pos as int, n as nat) == Some(
                (vs@.map_values(|v: u32| v as nat), np as int),
            ) && np <= b@.len(),
            None => funcidxs_at(b@, pos as int, n as nat) is None,
        },
{
    let mut vs: Vec<u32> = Vec::new();
    let mut p = pos;
    let mut i: u32 = 0;
    let ghost m = |v: u32| v as nat;
    while i < n
        invariant
            i <= n,
            p <= b@.len(),
            vs@.len() == i,
            m == (|v: u32| v as nat),
            match funcidxs_at(b@, p as int, (n - i) as nat) {
                Some((rest, np)) => funcidxs_at(b@, pos as int, n as nat) == Some(
                    (vs@.map_values(m) + rest, np),
                ),
                None => funcidxs_at(b@, pos as int, n as nat) is None,
            },
        decreases n - i,
    {
        match leb_u32(b, p) {
            None => {
                return None;
            },
            Some((v, np)) => {
                proof {
                    let rem = (n - i) as nat;
                    if funcidxs_at(b@, np as int, (rem - 1) as nat) is Some {
                        let (rest, np2) = funcidxs_at(b@, np as int, (rem - 1) as nat)->0;
                        assert(vs@.map_values(m) + (seq![v as nat] + rest) =~= vs@.push(
                            v,
                        ).map_values(m) + rest) by {
                            assert(vs@.push(v).map_values(m) =~= vs@.map_values(m).push(
                                v as nat,
                            ));
                        }
                    }
                }
                vs.push(v);
                p = np;
            },
        }
        i += 1;
    }
    proof {
        assert(funcidxs_at(b@, p as int, 0) == Some((Seq::<nat>::empty(), p as int)));
        assert(vs@.map_values(m) + Seq::<nat>::empty() =~= vs@.map_values(m));
    }
    Some((vs, p))
}

/// One export at `pos`: a length-prefixed name, a kind byte, an index.
pub open spec fn export_at(b: Seq<u8>, pos: int) -> Option<((Seq<u8>, u8, nat), int)> {
    match leb_at(b, pos) {
        None => None,
        Some((len, p1)) => if p1 + len > b.len() {
            None
        } else {
            let p2 = p1 + len;
            if p2 >= b.len() {
                None
            } else {
                match leb_at(b, p2 + 1) {
                    None => None,
                    Some((idx, p3)) => Some(((b.subrange(p1, p2), b[p2], idx), p3)),
                }
            }
        },
    }
}

/// Read one export at `pos`.
fn parse_export(b: &[u8], pos: usize) -> (r: Option<((Vec<u8>, u8, u32), usize)>)
    ensures
        match r {
            Some((e, np)) => export_at(b@, pos as int) == Some(
                ((e.0@, e.1, e.2 as nat), np as int),
            ) && np <= b@.len(),
            None => export_at(b@, pos as int) is None,
        },
{
    match leb_u32(b, pos) {
        None => None,
        Some((len, p1)) => {
            if len as usize > b.len() || p1 > b.len() - len as usize {
                proof {
                    assert(p1 + len as nat > b@.len());
                }
                return None;
            }
            let p2 = p1 + len as usize;
            if p2 >= b.len() {
                return None;
            }
            let name = bytes_to_vec(vstd::slice::slice_subrange(b, p1, p2));
            let kind = b[p2];
            match leb_u32(b, p2 + 1) {
                None => None,
                Some((idx, p3)) => {
                    proof {
                        assert(name@ =~= b@.subrange(p1 as int, p2 as int));
                    }
                    Some(((name, kind, idx), p3))
                },
            }
        },
    }
}

/// A copy of a byte slice.
pub(crate) fn bytes_to_vec(s: &[u8]) -> (r: Vec<u8>)
    ensures
        r@ == s@,
{
    let mut r: Vec<u8> = Vec::new();
    let mut i: usize = 0;
    while i < s.len()
        invariant
            i <= s@.len(),
            r@ == s@.subrange(0, i as int),
        decreases s@.len() - i,
    {
        r.push(s[i]);
        proof {
            assert(r@ =~= s@.subrange(0, i + 1));
        }
        i += 1;
    }
    proof {
        assert(r@ =~= s@);
    }
    r
}

/// `n` exports from `pos`.
pub open spec fn exports_at(b: Seq<u8>, pos: int, n: nat) -> Option<
    (Seq<(Seq<u8>, u8, nat)>, int),
>
    decreases n,
{
    if n == 0 {
        Some((Seq::empty(), pos))
    } else {
        match export_at(b, pos) {
            None => None,
            Some((e, np)) => match exports_at(b, np, (n - 1) as nat) {
                None => None,
                Some((es, np2)) => Some((seq![e] + es, np2)),
            },
        }
    }
}

/// Read `n` exports from `pos`.
fn parse_exports(b: &[u8], pos: usize, n: u32) -> (r: Option<(Vec<(Vec<u8>, u8, u32)>, usize)>)
    requires
        pos <= b@.len(),
    ensures
        match r {
            Some((es, np)) => exports_at(b@, pos as int, n as nat) == Some(
                (es@.map_values(|e: (Vec<u8>, u8, u32)| (e.0@, e.1, e.2 as nat)), np as int),
            ) && np <= b@.len(),
            None => exports_at(b@, pos as int, n as nat) is None,
        },
{
    let mut es: Vec<(Vec<u8>, u8, u32)> = Vec::new();
    let mut p = pos;
    let mut i: u32 = 0;
    let ghost m = |e: (Vec<u8>, u8, u32)| (e.0@, e.1, e.2 as nat);
    while i < n
        invariant
            i <= n,
            p <= b@.len(),
            es@.len() == i,
            m == (|e: (Vec<u8>, u8, u32)| (e.0@, e.1, e.2 as nat)),
            match exports_at(b@, p as int, (n - i) as nat) {
                Some((rest, np)) => exports_at(b@, pos as int, n as nat) == Some(
                    (es@.map_values(m) + rest, np),
                ),
                None => exports_at(b@, pos as int, n as nat) is None,
            },
        decreases n - i,
    {
        match parse_export(b, p) {
            None => {
                return None;
            },
            Some((e, np)) => {
                proof {
                    let rem = (n - i) as nat;
                    if exports_at(b@, np as int, (rem - 1) as nat) is Some {
                        let (rest, np2) = exports_at(b@, np as int, (rem - 1) as nat)->0;
                        assert(es@.map_values(m) + (seq![(e.0@, e.1, e.2 as nat)] + rest)
                            =~= es@.push(e).map_values(m) + rest) by {
                            assert(es@.push(e).map_values(m) =~= es@.map_values(m).push(
                                (e.0@, e.1, e.2 as nat),
                            ));
                        }
                    }
                }
                es.push(e);
                p = np;
            },
        }
        i += 1;
    }
    proof {
        assert(exports_at(b@, p as int, 0) == Some(
            (Seq::<(Seq<u8>, u8, nat)>::empty(), p as int),
        ));
        assert(es@.map_values(m) + Seq::<(Seq<u8>, u8, nat)>::empty() =~= es@.map_values(m));
    }
    Some((es, p))
}

/// The payload bounds of the first custom section (id zero) bearing `name`,
/// scanning from `pos`: the bounds cover the content after the name. The
/// outer `None` means a malformed section chain or custom header, the inner
/// `None` that no such section exists.
pub open spec fn find_custom_spec(b: Seq<u8>, pos: int, name: Seq<u8>) -> Option<
    Option<(int, int)>,
>
    decreases b.len() - pos,
        when 0 <= pos <= b.len()
{
    if pos < 0 {
        None
    } else if pos >= b.len() {
        Some(None)
    } else {
        match leb_at(b, pos + 1) {
            None => None,
            Some((size, p2)) => if p2 + size > b.len() || p2 + size <= pos {
                None
            } else if b[pos] == 0 {
                match leb_at(b, p2) {
                    None => None,
                    Some((nl, p3)) => if p3 + nl > p2 + size {
                        None
                    } else if b.subrange(p3, p3 + nl) == name {
                        Some(Some((p3 + nl, p2 + size)))
                    } else {
                        find_custom_spec(b, p2 + size, name)
                    },
                }
            } else {
                find_custom_spec(b, p2 + size, name)
            },
        }
    }
}

/// Find the first custom section bearing `name` from `pos`.
pub fn find_custom(b: &[u8], pos: usize, name: &[u8]) -> (r: Option<Option<(usize, usize)>>)
    requires
        pos <= b@.len(),
    ensures
        match r {
            Some(Some((s, e))) => find_custom_spec(b@, pos as int, name@) == Some(
                Some((s as int, e as int)),
            ) && s <= e <= b@.len(),
            Some(None) => find_custom_spec(b@, pos as int, name@) == Some(
                None::<(int, int)>,
            ),
            None => find_custom_spec(b@, pos as int, name@) is None,
        },
    decreases b@.len() - pos,
{
    if pos >= b.len() {
        return Some(None);
    }
    match leb_u32(b, pos + 1) {
        None => None,
        Some((size, p2)) => {
            if size as usize > b.len() || p2 > b.len() - size as usize {
                proof {
                    assert(p2 + size as nat > b@.len());
                }
                return None;
            }
            let section_end = p2 + size as usize;
            if section_end <= pos {
                return None;
            }
            if b[pos] == 0 {
                match leb_u32(b, p2) {
                    None => None,
                    Some((nl, p3)) => {
                        if nl as usize > section_end || p3 > section_end - nl as usize {
                            proof {
                                assert(p3 + nl as nat > p2 + size as nat);
                            }
                            return None;
                        }
                        let name_end = p3 + nl as usize;
                        let sec_name = vstd::slice::slice_subrange(b, p3, name_end);
                        proof {
                            assert(sec_name@ =~= b@.subrange(p3 as int, name_end as int));
                        }
                        if bytes_eq(sec_name, name) {
                            Some(Some((name_end, section_end)))
                        } else {
                            find_custom(b, section_end, name)
                        }
                    },
                }
            } else {
                find_custom(b, section_end, name)
            }
        },
    }
}

/// The two byte slices hold the same bytes.
pub fn bytes_eq(a: &[u8], b: &[u8]) -> (r: bool)
    ensures
        r == (a@ == b@),
{
    if a.len() != b.len() {
        proof {
            assert(a@.len() != b@.len());
        }
        return false;
    }
    let mut i: usize = 0;
    while i < a.len()
        invariant
            a@.len() == b@.len(),
            i <= a@.len(),
            forall|j: int| 0 <= j < i ==> a@[j] == b@[j],
        decreases a@.len() - i,
    {
        if a[i] != b[i] {
            return false;
        }
        i += 1;
    }
    proof {
        assert(a@ =~= b@);
    }
    true
}

/// The function types the type section declares; an absent section declares
/// none, a malformed one nothing at all.
pub open spec fn typesec_spec(b: Seq<u8>) -> Option<Seq<(Seq<WasmType>, Seq<WasmType>)>> {
    match find_section_spec(b, 8, 1) {
        None => None,
        Some(None) => Some(Seq::empty()),
        Some(Some((s, e))) => match leb_at(b, s) {
            None => None,
            Some((n, p)) => match functypes_at(b, p, n) {
                None => None,
                Some((ts, _np)) => Some(ts),
            },
        },
    }
}

/// The type indices the function section declares.
pub open spec fn funcsec_spec(b: Seq<u8>) -> Option<Seq<nat>> {
    match find_section_spec(b, 8, 3) {
        None => None,
        Some(None) => Some(Seq::empty()),
        Some(Some((s, e))) => match leb_at(b, s) {
            None => None,
            Some((n, p)) => match funcidxs_at(b, p, n) {
                None => None,
                Some((vs, _np)) => Some(vs),
            },
        },
    }
}

/// The entries of the export section.
pub open spec fn exportsec_spec(b: Seq<u8>) -> Option<Seq<(Seq<u8>, u8, nat)>> {
    match find_section_spec(b, 8, 7) {
        None => None,
        Some(None) => Some(Seq::empty()),
        Some(Some((s, e))) => match leb_at(b, s) {
            None => None,
            Some((n, p)) => match exports_at(b, p, n) {
                None => None,
                Some((es, _np)) => Some(es),
            },
        },
    }
}

/// The names of the exported functions, in export order: entries of function
/// kind whose name bytes decode as text.
pub open spec fn names_of(es: Seq<(Seq<u8>, u8, nat)>) -> Seq<Seq<char>>
    decreases es.len(),
{
    if es.len() == 0 {
        Seq::empty()
    } else {
        names_of(es.drop_last()) + if es.last().1 == 0 && vstd::utf8::valid_utf8(es.last().0) {
            seq![vstd::utf8::decode_utf8(es.last().0)]
        } else {
            Seq::empty()
        }
    }
}

/// What reading the exported function names from a binary yields: nothing on
/// a bad marker or a malformed section, else the names in export order.
pub open spec fn export_names_spec(b: Seq<u8>) -> Option<Seq<Seq<char>>> {
    if !has_magic(b) {
        None
    } else {
        match exportsec_spec(b) {
            None => None,
            Some(es) => Some(names_of(es)),
        }
    }
}

/// The signature an export contributes: function-kind entries whose name
/// decodes and whose index resolves through the function and type sections.
pub open spec fn sig_of_export(
    types: Seq<(Seq<WasmType>, Seq<WasmType>)>,
    funcs: Seq<nat>,
    e: (Seq<u8>, u8, nat),
) -> Seq<crate::upgrade::SignatureView> {
    if e.1 == 0 && vstd::utf8::valid_utf8(e.0) && e.2 < funcs.len() && funcs[e.2 as int]
        < types.len() {
        seq![
            crate::upgrade::SignatureView {
                name: vstd::utf8::decode_utf8(e.0),
                params: types[funcs[e.2 as int] as int].0,
                results: types[funcs[e.2 as int] as int].1,
            },
        ]
    } else {
        Seq::empty()
    }
}

/// The signatures a list of exports contributes, in export order.
pub open spec fn sigs_of(
    types: Seq<(Seq<WasmType>, Seq<WasmType>)>,
    funcs: Seq<nat>,
    es: Seq<(Seq<u8>, u8, nat)>,
) -> Seq<crate::upgrade::SignatureView>
    decreases es.len(),
{
    if es.len() == 0 {
        Seq::empty()
    } else {
        sigs_of(types, funcs, es.drop_last()) + sig_of_export(types, funcs, es.last())
    }
}

/// What reading the exported signatures from a binary yields.
pub open spec fn signatures_spec(b: Seq<u8>) -> Option<Seq<crate::upgrade::SignatureView>> {
    if !has_magic(b) {
        None
    } else {
        match (typesec_spec(b), funcsec_spec(b), exportsec_spec(b)) {
            (Some(types), Some(funcs), Some(es)) => Some(sigs_of(types, funcs, es)),
            _ => None,
        }
    }
}

/// Relies on `String::from_utf8`: builds the string a UTF-8 byte sequence
/// encodes, and refuses bytes that are not valid UTF-8.
#[verifier::external_body]
pub(crate) fn string_from_utf8(b: Vec<u8>) -> (r: Option<String>)
    ensures
        match r {
            Some(s) => vstd::utf8::valid_utf8(b@) && s@ == vstd::utf8::decode_utf8(b@),
            None => !vstd::utf8::valid_utf8(b@),
        },
{
    match String::from_utf8(b) {
        Ok(s) => Some(s),
        Err(_) => None,
    }
}

/// Read the export section of a checked binary.
fn read_exports(bytes: &[u8]) -> (r: Option<Vec<(Vec<u8>, u8, u32)>>)
    requires
        has_magic(bytes@),
    ensures
        match r {
            Some(es) => exportsec_spec(bytes@) == Some(
                es@.map_values(|e: (Vec<u8>, u8, u32)| (e.0@, e.1, e.2 as nat)),
            ),
            None => exportsec_spec(bytes@) is None,
        },
{
    match find_section(bytes, 8, 7) {
        None => None,
        Some(None) => {
            proof {
                assert(Seq::<(Vec<u8>, u8, u32)>::empty().map_values(
                    |e: (Vec<u8>, u8, u32)| (e.0@, e.1, e.2 as nat),
                ) =~= Seq::<(Seq<u8>, u8, nat)>::empty());
            }
            Some(Vec::new())
        },
        Some(Some((s, _e))) => match leb_u32(bytes, s) {
            None => None,
            Some((n, p)) => match parse_exports(bytes, p, n) {
                None => None,
                Some((es, _np)) => Some(es),
            },
        },
    }
}

/// The exported function names of a contract binary, in export order.
/// Fails exactly on a bad leading marker or a malformed section.
pub fn parse_functions(bytes: &[u8]) -> (r: Result<Vec<String>, crate::DebuggerError>)
    ensures
        match r {
            Ok(names) => export_names_spec(bytes@) == Some(
                names@.map_values(|s: String| s@),
            ),
            Err(e) => export_names_spec(bytes@) is None && e
                == crate::DebuggerError::InvalidBinary,
        },
{
    if !check_magic(bytes) {
        return Err(crate::DebuggerError::InvalidBinary);
    }
    let es = match read_exports(bytes) {
        None => {
            return Err(crate::DebuggerError::InvalidBinary);
        },
        Some(es) => es,
    };
    let ghost ev = es@.map_values(|e: (Vec<u8>, u8, u32)| (e.0@, e.1, e.2 as nat));
    let mut names: Vec<String> = Vec::new();
    let mut i: usize = 0;
    proof {
        assert(ev.subrange(0, 0) =~= Seq::<(Seq<u8>, u8, nat)>::empty());
        assert(names@.map_values(|s: String| s@) =~= names_of(ev.subrange(0, 0)));
    }
    while i < es.len()
        invariant
            i <= es@.len(),
            ev == es@.map_values(|e: (Vec<u8>, u8, u32)| (e.0@, e.1, e.2 as nat)),
            names@.map_values(|s: String| s@) == names_of(ev.subrange(0, i as int)),
        decreases es@.len() - i,
    {
        let ghost pre = names@;
        proof {
            let p = ev.subrange(0, i + 1);
            assert(p.drop_last() =~= ev.subrange(0, i as int));
            assert(p.last() == ev[i as int]);
        }
        if es[i].1 == 0 {
            let name_bytes = bytes_to_vec(es[i].0.as_slice());
            match string_from_utf8(name_bytes) {
                Some(name) => {
                    names.push(name);
                    proof {
                        assert(names@ =~= pre.push(names@.last()));
                        assert(names@.map_values(|s: String| s@) =~= pre.map_values(
                            |s: String| s@,
                        ).push(names@.last()@));
                    }
                },
                None => {
                },
            }
        }
        i += 1;
    }
    proof {
        assert(ev.subrange(0, es@.len() as int) =~= ev);
    }
    Ok(names)
}

/// The exported function signatures of a contract binary, joining the type,
/// function and export sections, in export order. Fails exactly on a bad
/// leading marker or a malformed section.
pub fn parse_function_signatures(bytes: &[u8]) -> (r: Result<
    Vec<crate::upgrade::FunctionSignature>,
    crate::DebuggerError,
>)
    ensures
        match r {
            Ok(sigs) => signatures_spec(bytes@) == Some(
                sigs@.map_values(|s: crate::upgrade::FunctionSignature| s@),
            ),
            Err(e) => signatures_spec(bytes@) is None && e
                == crate::DebuggerError::InvalidBinary,
        },
{
    if !check_magic(bytes) {
        return Err(crate::DebuggerError::InvalidBinary);
    }
    let types = match find_section(bytes, 8, 1) {
        None => {
            return Err(crate::DebuggerError::InvalidBinary);
        },
        Some(None) => Vec::new(),
        Some(Some((s, _e))) => match leb_u32(bytes, s) {
            None => {
                return Err(crate::DebuggerError::InvalidBinary);
            },
            Some((n, p)) => match parse_functypes(bytes, p, n) {
                None => {
                    return Err(crate::DebuggerError::InvalidBinary);
                },
                Some((ts, _np)) => ts,
            },
        },
    };
    proof {
        if typesec_spec(bytes@) == Some(Seq::<(Seq<WasmType>, Seq<WasmType>)>::empty()) {
            assert(Seq::<(Vec<WasmType>, Vec<WasmType>)>::empty().map_values(
                |ft: (Vec<WasmType>, Vec<WasmType>)| (ft.0@, ft.1@),
            ) =~= Seq::<(Seq<WasmType>, Seq<WasmType>)>::empty());
        }
    }
    let funcs = match find_section(bytes, 8, 3) {
        None => {
            return Err(crate::DebuggerError::InvalidBinary);
        },
        Some(None) => Vec::new(),
        Some(Some((s, _e))) => match leb_u32(bytes, s) {
            None => {
                return Err(crate::DebuggerError::InvalidBinary);
            },
            Some((n, p)) => match parse_funcidxs(bytes, p, n) {
                None => {
                    return Err(crate::DebuggerError::InvalidBinary);
                },
                Some((vs, _np)) => vs,
            },
        },
    };
    proof {
        if funcsec_spec(bytes@) == Some(Seq::<nat>::empty()) {
            assert(Seq::<u32>::empty().map_values(|v: u32| v as nat) =~= Seq::<nat>::empty());
        }
    }
    let es = match read_exports(bytes) {
        None => {
            return Err(crate::DebuggerError::InvalidBinary);
        },
        Some(es) => es,
    };
    let ghost tv = types@.map_values(|ft: (Vec<WasmType>, Vec<WasmType>)| (ft.0@, ft.1@));
    let ghost fv = funcs@.map_values(|v: u32| v as nat);
    let ghost ev = es@.map_values(|e: (Vec<u8>, u8, u32)| (e.0@, e.1, e.2 as nat));
    let mut sigs: Vec<crate::upgrade::FunctionSignature> = Vec::new();
    let mut i: usize = 0;
    proof {
        assert(ev.subrange(0, 0) =~= Seq::<(Seq<u8>, u8, nat)>::empty());
        assert(sigs@.map_values(|s: crate::upgrade::FunctionSignature| s@) =~= sigs_of(
            tv,
            fv,
            ev.subrange(0, 0),
        ));
    }
    while i < es.len()
        invariant
            i <= es@.len(),
            tv == types@.map_values(|ft: (Vec<WasmType>, Vec<WasmType>)| (ft.0@, ft.1@)),
            fv == funcs@.map_values(|v: u32| v as nat),
            ev == es@.map_values(|e: (Vec<u8>, u8, u32)| (e.0@, e.1, e.2 as nat)),
            sigs@.map_values(|s: crate::upgrade::FunctionSignature| s@) == sigs_of(
                tv,
                fv,
                ev.subrange(0, i as int),
            ),
        decreases es@.len() - i,
    {
        let ghost pre = sigs@;
        proof {
            let p = ev.subrange(0, i + 1);
            assert(p.drop_last() =~= ev.subrange(0, i as int));
            assert(p.last() == ev[i as int]);
        }
        if es[i].1 == 0 && (es[i].2 as usize) < funcs.len() {
            let tidx = funcs[es[i].2 as usize];
            if (tidx as usize) < types.len() {
                let name_bytes = bytes_to_vec(es[i].0.as_slice());
                match string_from_utf8(name_bytes) {
                    Some(name) => {
                        let params = copy_wasm_types(types[tidx as usize].0.as_slice());
                        let results = copy_wasm_types(types[tidx as usize].1.as_slice());
                        sigs.push(
                            crate::upgrade::FunctionSignature { name, params, results },
                        );
                        proof {
                            assert(fv[ev[i as int].2 as int] == tidx as nat);
                            assert(tv[tidx as int].0 == types@[tidx as int].0@);
                            assert(sigs@ =~= pre.push(sigs@.last()));
                            assert(sigs@.map_values(
                                |s: crate::upgrade::FunctionSignature| s@,
                            ) =~= pre.map_values(|s: crate::upgrade::FunctionSignature| s@).push(
                                sigs@.last()@,
                            ));
                        }
                    },
                    None => {
                    },
                }
            }
        }
        proof {
            assert(sigs@.map_values(|s: crate::upgrade::FunctionSignature| s@) =~= sigs_of(
                tv,
                fv,
                ev.subrange(0, i + 1),
            ));
        }
        i += 1;
    }
    proof {
        assert(ev.subrange(0, es@.len() as int) =~= ev);
    }
    Ok(sigs)
}

/// A copy of a type list.
fn copy_wasm_types(ts: &[WasmType]) -> (r: Vec<WasmType>)
    ensures
        r@ == ts@,
{
    let mut r: Vec<WasmType> = Vec::new();
    let mut i: usize = 0;
    while i < ts.len()
        invariant
            i <= ts@.len(),
            r@ == ts@.subrange(0, i as int),
        decreases ts@.len() - i,
    {
        r.push(ts[i]);
        proof {
            assert(r@ =~= ts@.subrange(0, i + 1));
        }
        i += 1;
    }
    proof {
        assert(r@ =~= ts@);
    }
    r
}

} // verus!
