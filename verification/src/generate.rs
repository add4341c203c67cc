//! Automatic generation of byte signatures.

use vstd::prelude::*;

use crate::analysis;
use crate::analysis::{CallSite, FieldAccess, FuncFactsV, RipRef, Target};
use crate::insn;
use crate::insn::{Insn, Offsets};
use crate::model::{Module, ModuleV, OwnerV};
use crate::pe;
use crate::pe::PeV;
use crate::sigs;
use crate::sigs::{Cap, Kind, Sig, SigV};
use crate::table;
use crate::table::{Key, Table};
use crate::world::{World, WorldV};

verus! {

/// Longest pattern that is grown.
pub const MAX_SIG: usize = 96;

// ---------------------------------------------------------------------------
// Masking.

/// A direct branch or call.
pub open spec fn is_branch(ins: Insn) -> bool {
    let f = ins.head.flow;
    f == insn::FLOW_CALL || f == insn::FLOW_UNCONDITIONAL_BRANCH || f == insn::FLOW_CONDITIONAL_BRANCH
}

/// The displacement is likely to change between builds.
pub open spec fn masks_disp(ins: Insn, co: Offsets, keep_disp: bool) -> bool {
    co.disp_size != 0 && (ins.mem.ip_rel || (co.disp_size >= 4 && !keep_disp))
}

/// The immediate is likely to change between builds.
pub open spec fn masks_imm(ins: Insn, co: Offsets) -> bool {
    let short_branch = is_branch(ins) && co.imm_size == 1;
    let big = match ins.imm() {
        Some(v) => v > 0xff,
        None => false,
    };
    co.imm_size != 0 && !short_branch && (is_branch(ins) || co.imm_size >= 4 || big)
}

/// Near branches encode their target as a rel32 field at the end.
pub open spec fn masks_tail(ins: Insn, co: Offsets) -> bool {
    is_branch(ins) && ins.head.len >= 5 && co.imm_size == 0 && !ins.mem.ip_rel && ins.op0.kind == insn::KIND_NEAR_BRANCH64
}

pub open spec fn within(k: int, off: int, size: int) -> bool {
    off <= k < off + size
}

/// Byte `k` of an instruction is likely to change between builds.
pub open spec fn is_wild(ins: Insn, co: Offsets, keep_disp: bool, k: int) -> bool {
    ||| masks_disp(ins, co, keep_disp) && within(k, co.disp_off as int, co.disp_size as int)
    ||| masks_imm(ins, co) && within(k, co.imm_off as int, co.imm_size as int)
    ||| co.imm2_size != 0 && within(k, co.imm2_off as int, co.imm2_size as int)
    ||| masks_tail(ins, co) && within(k, ins.head.len - 4, 4)
}

/// The bytes of an instruction with those masked that are likely to change.
pub open spec fn masked_raw(raw: Seq<u8>, ins: Insn, co: Offsets, keep_disp: bool) -> Seq<Option<u8>> {
    Seq::new(
        raw.len(),
        |k: int|
            if is_wild(ins, co, keep_disp, k) {
                None
            } else {
                Some(raw[k])
            },
    )
}

fn is_within(k: usize, off: usize, size: usize) -> (r: bool)
    ensures
        r == within(k as int, off as int, size as int),
{
    k >= off && k - off < size
}

fn branches(ins: &Insn) -> (r: bool)
    ensures
        r == is_branch(*ins),
{
    let f = ins.head.flow;
    f == insn::FLOW_CALL || f == insn::FLOW_UNCONDITIONAL_BRANCH || f == insn::FLOW_CONDITIONAL_BRANCH
}

/// Masks the bytes of an instruction, given where its constants are encoded.
pub fn mask(raw: &[u8], ins: &Insn, co: &Offsets, keep_disp: bool) -> (r: Vec<Option<u8>>)
    ensures
        r@ == masked_raw(raw@, *ins, *co, keep_disp),
{
    let disp = co.disp_size != 0 && (ins.mem.ip_rel || (co.disp_size >= 4 && !keep_disp));
    let branch = branches(ins);
    let short_branch = branch && co.imm_size == 1;
    let big = match insn::imm_value(ins) {
        Some(v) => v > 0xff,
        None => false,
    };
    let imm = co.imm_size != 0 && !short_branch && (branch || co.imm_size >= 4 || big);
    let tail = branch && ins.head.len >= 5 && co.imm_size == 0 && !ins.mem.ip_rel && ins.op0.kind
        == insn::KIND_NEAR_BRANCH64;
    let mut out: Vec<Option<u8>> = Vec::new();
    let mut k: usize = 0;
    while k < raw.len()
        invariant
            disp == masks_disp(*ins, *co, keep_disp),
            imm == masks_imm(*ins, *co),
            tail == masks_tail(*ins, *co),
            k <= raw@.len(),
            out@ == masked_raw(raw@, *ins, *co, keep_disp).take(k as int),
        decreases raw@.len() - k,
    {
        let wild = (disp && is_within(k, co.disp_off, co.disp_size)) || (imm && is_within(k, co.imm_off, co.imm_size)) || (
        co.imm2_size != 0 && is_within(k, co.imm2_off, co.imm2_size)) || (tail && is_within(
            k,
            ins.head.len as usize - 4,
            4,
        ));
        assert(wild == is_wild(*ins, *co, keep_disp, k as int));
        if wild {
            out.push(None);
        } else {
            out.push(Some(raw[k]));
        }
        k += 1;
        assert(out@ =~= masked_raw(raw@, *ins, *co, keep_disp).take(k as int));
    }
    assert(out@ =~= masked_raw(raw@, *ins, *co, keep_disp));
    out
}

/// The bytes of an instruction of an image.
pub open spec fn raw_bytes(pe: PeV, ins: Insn) -> Seq<u8> {
    pe.bytes(ins.ip.wrapping_sub(pe.image_base) as u32, ins.head.len as int)
}

/// The masked bytes of an instruction of an image.
pub open spec fn masked_bytes(pe: PeV, ins: Insn, keep_disp: bool) -> Seq<Option<u8>> {
    let raw = raw_bytes(pe, ins);
    masked_raw(raw, ins, insn::offsets_of(raw, ins.ip), keep_disp)
}

/// Masked bytes of one instruction: operands likely to change between builds
/// (rip-relative displacements, branch targets, large displacements and
/// immediates) become wildcards.
pub fn masked(m: &Module, ins: &Insn, keep_disp: bool) -> (r: Vec<Option<u8>>)
    ensures
        r@ == masked_bytes(m.deep_view().pe, *ins, keep_disp),
{
    let rva = ins.ip.wrapping_sub(m.pe.image_base) as u32;
    let raw = m.pe.bytes(rva, ins.head.len as usize);
    let co = insn::constant_offsets(raw, ins.ip);
    mask(raw, ins, &co, keep_disp)
}

// ---------------------------------------------------------------------------
// Decoding.

/// A stretch of code ends behind an instruction.
pub open spec fn is_last(ins: Insn) -> bool {
    ins.head.flow == insn::FLOW_RETURN || ins.head.flow == insn::FLOW_INTERRUPT
}

/// The instructions of `bytes` from `pos` on, up to the first return.
pub open spec fn decoded(bytes: Seq<u8>, va: u64, pos: int) -> Seq<Insn>
    decreases bytes.len() - pos,
{
    if pos < 0 || pos >= bytes.len() {
        Seq::empty()
    } else {
        let ins = insn::insn(bytes.skip(pos), va.wrapping_add(pos as u64));
        if ins.head.invalid {
            Seq::empty()
        } else if is_last(ins) || ins.head.len == 0 || pos + ins.head.len > bytes.len() {
            seq![ins]
        } else {
            seq![ins] + decoded(bytes, va, pos + ins.head.len)
        }
    }
}

/// The instructions of the `max` bytes from an address on.
pub open spec fn code_from(pe: PeV, rva: u32, max: int) -> Seq<Insn> {
    decoded(pe.bytes(rva, max), pe.rva_to_va(rva), 0)
}

pub fn decode_from(m: &Module, rva: u32, max: usize) -> (r: Vec<Insn>)
    ensures
        r@ == code_from(m.deep_view().pe, rva, max as int),
{
    let bytes = m.pe.bytes(rva, max);
    let va = m.pe.rva_to_va(rva);
    let ghost all = decoded(bytes@, va, 0);
    let mut out: Vec<Insn> = Vec::new();
    let mut pos: usize = 0;
    assert(out@ + all =~= all);
    while pos < bytes.len()
        invariant_except_break
            out@ + decoded(bytes@, va, pos as int) == all,
        ensures
            out@ == all,
        decreases bytes@.len() - pos,
    {
        let rest = vstd::slice::slice_subrange(bytes, pos, bytes.len());
        assert(rest@ =~= bytes@.skip(pos as int));
        let ins = insn::decode(rest, va.wrapping_add(pos as u64));
        if ins.head.invalid {
            assert(out@ + Seq::<Insn>::empty() =~= out@);
            break;
        }
        let ghost pre = out@;
        out.push(ins);
        if ins.head.flow == insn::FLOW_RETURN || ins.head.flow == insn::FLOW_INTERRUPT {
            assert(pre + seq![ins] =~= out@);
            break;
        }
        proof {
            let tail = decoded(bytes@, va, pos + ins.head.len);
            assert(pre + (seq![ins] + tail) =~= out@ + tail);
        }
        pos += ins.head.len as usize;
        if pos >= bytes.len() {
            assert(out@ + Seq::<Insn>::empty() =~= out@);
        }
    }
    out
}

// ---------------------------------------------------------------------------
// Growing.

/// How many of the first `n` bytes are fixed.
pub open spec fn fixed_count(pat: Seq<Option<u8>>, n: int) -> int
    decreases n,
{
    if n <= 0 {
        0
    } else if pat[n - 1] is Some {
        fixed_count(pat, n - 1) + 1
    } else {
        fixed_count(pat, n - 1)
    }
}

fn count_fixed(pat: &Vec<Option<u8>>) -> (r: usize)
    ensures
        r == fixed_count(pat@, pat@.len() as int),
{
    let mut n: usize = 0;
    let mut i: usize = 0;
    while i < pat.len()
        invariant
            i <= pat@.len(),
            n <= i,
            n == fixed_count(pat@, i as int),
        decreases pat@.len() - i,
    {
        if pat[i].is_some() {
            n += 1;
        }
        i += 1;
    }
    n
}

/// Those of the first `n` addresses at which a pattern still matches.
pub open spec fn still_matching(pe: PeV, prev: Seq<u32>, pat: Seq<Option<u8>>, n: int) -> Seq<u32>
    decreases n,
{
    if n <= 0 {
        Seq::empty()
    } else {
        let s = still_matching(pe, prev, pat, n - 1);
        if sigs::fits(pe.bytes(prev[n - 1], pat.len() as int), 0, pat) {
            s.push(prev[n - 1])
        } else {
            s
        }
    }
}

fn filter_matches(m: &Module, prev: &Vec<u32>, pat: &Vec<Option<u8>>) -> (r: Vec<u32>)
    ensures
        r@ == still_matching(m.deep_view().pe, prev@, pat@, prev@.len() as int),
{
    let ghost p = m.deep_view().pe;
    let mut out: Vec<u32> = Vec::new();
    let mut i: usize = 0;
    while i < prev.len()
        invariant
            p == m.pe.deep_view(),
            i <= prev@.len(),
            out@ == still_matching(p, prev@, pat@, i as int),
        decreases prev@.len() - i,
    {
        if sigs::matches_at(m.pe.bytes(prev[i], pat.len()), 0, pat) {
            out.push(prev[i]);
        }
        i += 1;
    }
    out
}

/// Bytes that replace those of one instruction.
pub type SpecialV = Option<(int, Seq<Option<u8>>)>;

/// The bytes that instruction `k` adds to a pattern.
pub open spec fn part_of(pe: PeV, insns: Seq<Insn>, special: SpecialV, k: int) -> Seq<Option<u8>> {
    match special {
        Some((idx, bytes)) => if idx == k {
            bytes
        } else {
            masked_bytes(pe, insns[k], false)
        },
        None => masked_bytes(pe, insns[k], false),
    }
}

/// The pattern once it is unique, grown from `pat` by the instructions from
/// `k` on; `cands` are its matches, where they are known.
pub open spec fn grown_from(
    pe: PeV,
    insns: Seq<Insn>,
    special: SpecialV,
    min_fixed: int,
    k: int,
    pat: Seq<Option<u8>>,
    cands: Option<Seq<u32>>,
) -> Option<Seq<Option<u8>>>
    decreases insns.len() - k,
{
    if k < 0 || k >= insns.len() {
        None
    } else {
        let p = pat + part_of(pe, insns, special, k);
        let early = special is Some && k < special.unwrap().0;
        if p.len() > MAX_SIG {
            None
        } else if fixed_count(p, p.len() as int) < min_fixed || early {
            grown_from(pe, insns, special, min_fixed, k + 1, p, cands)
        } else {
            let c = match cands {
                None => sigs::scanned(pe, p, 4096),
                Some(prev) => still_matching(pe, prev, p, prev.len() as int),
            };
            if c.len() == 1 {
                Some(p)
            } else if c.len() == 0 {
                None
            } else {
                // A capped scan cannot be trusted for filtering later.
                let next = if c.len() >= 4096 {
                    None
                } else {
                    Some(c)
                };
                grown_from(pe, insns, special, min_fixed, k + 1, p, next)
            }
        }
    }
}

/// The pattern of instructions, grown until it is unique.
pub open spec fn grown(pe: PeV, insns: Seq<Insn>, special: SpecialV, min_fixed: int) -> Option<Seq<Option<u8>>> {
    grown_from(pe, insns, special, min_fixed, 0, Seq::empty(), None)
}

/// Model of replaced bytes.
pub open spec fn special_model(s: Option<(usize, Vec<Option<u8>>)>) -> SpecialV {
    match s {
        Some((i, b)) => Some((i as int, b@)),
        None => None,
    }
}

fn append_bytes(out: &mut Vec<Option<u8>>, more: &Vec<Option<u8>>)
    ensures
        final(out)@ == old(out)@ + more@,
{
    let ghost before = out@;
    let mut i: usize = 0;
    assert(before + more@.take(0) =~= before);
    while i < more.len()
        invariant
            before == old(out)@,
            i <= more@.len(),
            out@ == before + more@.take(i as int),
        decreases more@.len() - i,
    {
        out.push(more[i]);
        i += 1;
        assert(before + more@.take(i as int) =~= (before + more@.take(i - 1)).push(more@[i - 1]));
    }
    assert(more@.take(i as int) =~= more@);
}

/// Grow a pattern instruction-by-instruction until it is unique.
/// `special` lets the caller replace one instruction's bytes (for captures).
pub fn grow_unique(
    m: &Module,
    insns: &Vec<Insn>,
    special: &Option<(usize, Vec<Option<u8>>)>,
    min_fixed: usize,
) -> (r: Option<Vec<Option<u8>>>)
    ensures
        match r {
            Some(p) => grown(m.deep_view().pe, insns@, special_model(*special), min_fixed as int) == Some(p@),
            None => grown(m.deep_view().pe, insns@, special_model(*special), min_fixed as int) is None,
        },
{
    let ghost p = m.deep_view().pe;
    let ghost sp = special_model(*special);
    let ghost all = grown(p, insns@, sp, min_fixed as int);
    let mut pat: Vec<Option<u8>> = Vec::new();
    let mut cands: Option<Vec<u32>> = None;
    let mut k: usize = 0;
    while k < insns.len()
        invariant
            p == m.deep_view().pe,
            sp == special_model(*special),
            all == grown(p, insns@, sp, min_fixed as int),
            k <= insns@.len(),
            all == grown_from(
                p,
                insns@,
                sp,
                min_fixed as int,
                k as int,
                pat@,
                match cands {
                    Some(c) => Some(c@),
                    None => None,
                },
            ),
        decreases insns@.len() - k,
    {
        let mut early = false;
        let mut replaced = false;
        if let Some((idx, bytes)) = special {
            early = k < *idx;
            if *idx == k {
                replaced = true;
                append_bytes(&mut pat, bytes);
            }
        }
        if !replaced {
            let part = masked(m, &insns[k], false);
            append_bytes(&mut pat, &part);
        }
        if pat.len() > MAX_SIG {
            return None;
        }
        if count_fixed(&pat) >= min_fixed && !early {
            let c = match &cands {
                None => sigs::scan(m, &pat, 4096),
                Some(prev) => filter_matches(m, prev, &pat),
            };
            if c.len() == 1 {
                return Some(pat);
            }
            if c.len() == 0 {
                return None;
            }
            cands = if c.len() >= 4096 { None } else { Some(c) };
        }
        k += 1;
    }
    None
}

// ---------------------------------------------------------------------------
// Functions.

/// How many bytes of a function may go into a pattern.
pub open spec fn window(m: ModuleV, rva: u32) -> int {
    let end = match m.func(rva) {
        Some(f) => f.end,
        None => rva.wrapping_add(0x200),
    };
    let n = end.wrapping_sub(rva) as int;
    if n < 16 {
        16
    } else if n > MAX_SIG + 16 {
        MAX_SIG + 16
    } else {
        n
    }
}

/// `Some(b) ?? ?? ?? ??`
pub open spec fn call_bytes(b: u8) -> Seq<Option<u8>> {
    seq![Some(b), None, None, None, None]
}

/// What a call site of a function gives: nothing, or the end of the search,
/// with a pattern or without.
pub open spec fn call_pattern(m: ModuleV, c: CallSite, rva: u32) -> Option<Option<Seq<Option<u8>>>> {
    let insns = code_from(m.pe, c.site, MAX_SIG as int);
    if c.target != Target::Direct(rva) || c.tail || insns.len() == 0 || insns[0].head.len != 5 {
        None
    } else {
        match pe::byte(m.pe.image, c.site as int) {
            None => Some(None),
            Some(b) => match grown(m.pe, insns, Some((0, call_bytes(b))), 6) {
                Some(p) => Some(Some(p)),
                None => None,
            },
        }
    }
}

/// What the calls of a function from `j` on give.
pub open spec fn calls_pattern(m: ModuleV, calls: Seq<CallSite>, rva: u32, j: int) -> Option<Option<Seq<Option<u8>>>>
    decreases calls.len() - j,
{
    if j < 0 || j >= calls.len() {
        None
    } else {
        match call_pattern(m, calls[j], rva) {
            Some(r) => Some(r),
            None => calls_pattern(m, calls, rva, j + 1),
        }
    }
}

/// What the calls of all functions from `i` on give.
pub open spec fn callers_pattern(m: ModuleV, rva: u32, i: int) -> Option<Seq<Option<u8>>>
    decreases m.code.funcs.len() - i,
{
    if i < 0 || i >= m.code.funcs.len() {
        None
    } else {
        match calls_pattern(m, m.code.funcs[i].1.calls, rva, 0) {
            Some(r) => r,
            None => callers_pattern(m, rva, i + 1),
        }
    }
}

/// The signature of a function: its first bytes, or a unique call site of it.
pub open spec fn func_sig_of(m: ModuleV, name: Seq<char>, rva: u32) -> Option<SigV> {
    let sig = SigV { module: m.pe.name, kind: Kind::Func, name, bytes: Seq::empty(), capture: None, adjust: 0 };
    match grown(m.pe, code_from(m.pe, rva, window(m, rva)), None, 6) {
        Some(bytes) => Some(SigV { bytes, ..sig }),
        None => match callers_pattern(m, rva, 0) {
            Some(bytes) => Some(SigV { bytes, capture: Some((1, Cap::Rel32)), ..sig }),
            None => None,
        },
    }
}

fn new_sig(m: &Module, kind: Kind, name: &str, bytes: Vec<Option<u8>>, capture: Option<(usize, Cap)>, adjust: i64) -> (r: Sig)
    ensures
        r.deep_view() == (SigV { module: m.deep_view().pe.name, kind, name: name@, bytes: bytes@, capture, adjust }),
{
    Sig { module: m.pe.name.clone(), kind, name: name.to_owned(), bytes, capture, adjust }
}

fn find_call_pattern(m: &Module, c: &CallSite, rva: u32) -> (r: Option<Option<Vec<Option<u8>>>>)
    ensures
        match r {
            Some(Some(p)) => call_pattern(m.deep_view(), *c, rva) == Some(Some(p@)),
            Some(None) => call_pattern(m.deep_view(), *c, rva) == Some(None::<Seq<Option<u8>>>),
            None => call_pattern(m.deep_view(), *c, rva) is None,
        },
{
    if c.target != Target::Direct(rva) || c.tail {
        return None;
    }
    let insns = decode_from(m, c.site, MAX_SIG);
    if insns.len() == 0 || insns[0].head.len != 5 {
        return None;
    }
    let b = match m.pe.u8(c.site) {
        Some(b) => b,
        None => {
            return Some(None);
        },
    };
    let sp: Vec<Option<u8>> = vec![Some(b), None, None, None, None];
    assert(sp@ =~= call_bytes(b));
    let special = Some((0usize, sp));
    match grow_unique(m, &insns, &special, 6) {
        Some(p) => Some(Some(p)),
        None => None,
    }
}

fn find_callers_pattern(m: &Module, rva: u32) -> (r: Option<Vec<Option<u8>>>)
    ensures
        match r {
            Some(p) => callers_pattern(m.deep_view(), rva, 0) == Some(p@),
            None => callers_pattern(m.deep_view(), rva, 0) is None,
        },
{
    let ghost mv = m.deep_view();
    let mut i: usize = 0;
    while i < m.code.funcs.len()
        invariant
            mv == m.deep_view(),
            i <= mv.code.funcs.len(),
            callers_pattern(mv, rva, 0) == callers_pattern(mv, rva, i as int),
        decreases mv.code.funcs.len() - i,
    {
        let f = m.code.funcs.value_at(i);
        let ghost calls = f.calls@;
        let mut j: usize = 0;
        while j < f.calls.len()
            invariant
                mv == m.deep_view(),
                i < mv.code.funcs.len(),
                calls == f.calls@,
                calls == mv.code.funcs[i as int].1.calls,
                j <= f.calls@.len(),
                callers_pattern(mv, rva, 0) == callers_pattern(mv, rva, i as int),
                calls_pattern(mv, calls, rva, 0) == calls_pattern(mv, calls, rva, j as int),
            decreases f.calls@.len() - j,
        {
            if let Some(r) = find_call_pattern(m, &f.calls[j], rva) {
                return r;
            }
            j += 1;
        }
        i += 1;
    }
    None
}

pub fn func_sig(m: &Module, name: &str, rva: u32) -> (r: Option<Sig>)
    ensures
        r.deep_view() == func_sig_of(m.deep_view(), name@, rva),
{
    let end = match m.func(rva) {
        Some(f) => f.end,
        None => rva.wrapping_add(0x200),
    };
    let mut n: usize = end.wrapping_sub(rva) as usize;
    if n < 16 {
        n = 16;
    } else if n > MAX_SIG + 16 {
        n = MAX_SIG + 16;
    }
    let insns = decode_from(m, rva, n);
    let none: Option<(usize, Vec<Option<u8>>)> = None;
    if let Some(bytes) = grow_unique(m, &insns, &none, 6) {
        return Some(new_sig(m, Kind::Func, name, bytes, None, 0));
    }
    // Fallback: a unique call site of the function.
    match find_callers_pattern(m, rva) {
        Some(bytes) => Some(new_sig(m, Kind::Func, name, bytes, Some((1, Cap::Rel32)), 0)),
        None => None,
    }
}

// ---------------------------------------------------------------------------
// Fields and globals.

/// Where the constants of the instruction at a site are encoded.
pub open spec fn site_offsets(pe: PeV, site: u32, ins: Insn) -> Offsets {
    insn::offsets_of(pe.bytes(site, ins.head.len as int), ins.ip)
}

fn offsets_at(m: &Module, site: u32, ins: &Insn) -> (r: Offsets)
    ensures
        r == site_offsets(m.deep_view().pe, site, *ins),
{
    insn::constant_offsets(m.pe.bytes(site, ins.head.len as usize), ins.ip)
}

/// The capture of a displacement of a size.
pub open spec fn disp_capture(co: Offsets) -> Option<(usize, Cap)> {
    if co.disp_size == 4 {
        Some((co.disp_off, Cap::I32))
    } else if co.disp_size == 1 {
        Some((co.disp_off, Cap::I8))
    } else {
        None
    }
}

/// A pattern with captured bytes wild.
pub open spec fn captured(bytes: Seq<Option<u8>>, pos: usize, cap: Cap) -> Seq<Option<u8>> {
    Seq::new(
        bytes.len(),
        |k: int|
            if within(k, pos as int, cap.width() as int) {
                None
            } else {
                bytes[k]
            },
    )
}

fn capture_bytes(bytes: &Vec<Option<u8>>, pos: usize, cap: Cap) -> (r: Vec<Option<u8>>)
    ensures
        r@ == captured(bytes@, pos, cap),
{
    let mut out: Vec<Option<u8>> = Vec::new();
    let mut k: usize = 0;
    while k < bytes.len()
        invariant
            k <= bytes@.len(),
            out@ == captured(bytes@, pos, cap).take(k as int),
        decreases bytes@.len() - k,
    {
        if is_within(k, pos, cap.len()) {
            out.push(None);
        } else {
            out.push(bytes[k]);
        }
        k += 1;
        assert(out@ =~= captured(bytes@, pos, cap).take(k as int));
    }
    assert(out@ =~= captured(bytes@, pos, cap));
    out
}

/// The signature of a field accessed at a site.
pub open spec fn field_sig_of(m: ModuleV, name: Seq<char>, site: u32, delta: i64) -> Option<SigV> {
    let insns = code_from(m.pe, site, MAX_SIG as int);
    if insns.len() == 0 {
        None
    } else {
        let first = insns[0];
        let co = site_offsets(m.pe, site, first);
        if co.disp_size == 0 || first.mem.ip_rel {
            None
        } else {
            match disp_capture(co) {
                None => None,
                Some((pos, cap)) => {
                    let sp = captured(masked_bytes(m.pe, first, true), pos, cap);
                    match grown(m.pe, insns, Some((0, sp)), 6) {
                        None => None,
                        Some(bytes) => Some(
                            SigV {
                                module: m.pe.name,
                                kind: Kind::Field,
                                name,
                                bytes,
                                capture: Some((pos, cap)),
                                adjust: delta,
                            },
                        ),
                    }
                },
            }
        }
    }
}

/// Signature capturing the displacement of a field access at `site`.
/// `delta` is (field offset - displacement) at that site.
pub fn field_sig(m: &Module, name: &str, site: u32, delta: i64) -> (r: Option<Sig>)
    ensures
        r.deep_view() == field_sig_of(m.deep_view(), name@, site, delta),
{
    let insns = decode_from(m, site, MAX_SIG);
    if insns.len() == 0 {
        return None;
    }
    let first = insns[0];
    let co = offsets_at(m, site, &first);
    if co.disp_size == 0 || first.mem.ip_rel {
        return None;
    }
    let (pos, cap) = if co.disp_size == 4 {
        (co.disp_off, Cap::I32)
    } else if co.disp_size == 1 {
        (co.disp_off, Cap::I8)
    } else {
        return None;
    };
    let sp = capture_bytes(&masked(m, &first, true), pos, cap);
    let special = Some((0usize, sp));
    match grow_unique(m, &insns, &special, 6) {
        Some(bytes) => Some(new_sig(m, Kind::Field, name, bytes, Some((pos, cap)), delta)),
        None => None,
    }
}

/// The signature of a global referenced at a site. The target is the next
/// address plus the displacement, which may stand before other bytes of the
/// instruction.
pub open spec fn global_sig_of(m: ModuleV, name: Seq<char>, site: u32) -> Option<SigV> {
    let insns = code_from(m.pe, site, MAX_SIG as int);
    if insns.len() == 0 || !insns[0].mem.ip_rel {
        None
    } else {
        let first = insns[0];
        let pos = site_offsets(m.pe, site, first).disp_off;
        match grown(m.pe, insns, Some((0, masked_bytes(m.pe, first, false))), 5) {
            None => None,
            Some(bytes) => Some(
                SigV {
                    module: m.pe.name,
                    kind: Kind::Global,
                    name,
                    bytes,
                    capture: Some((pos, Cap::Rel32)),
                    adjust: (first.head.len as i64).wrapping_sub(pos as i64).wrapping_sub(4),
                },
            ),
        }
    }
}

/// Signature resolving to a global through a rip-relative reference at `site`.
pub fn global_sig(m: &Module, name: &str, site: u32) -> (r: Option<Sig>)
    ensures
        r.deep_view() == global_sig_of(m.deep_view(), name@, site),
{
    let insns = decode_from(m, site, MAX_SIG);
    if insns.len() == 0 || !insns[0].mem.ip_rel {
        return None;
    }
    let first = insns[0];
    let pos = offsets_at(m, site, &first).disp_off;
    let special = Some((0usize, masked(m, &first, false)));
    match grow_unique(m, &insns, &special, 5) {
        Some(bytes) => {
            let adjust = (first.head.len as i64).wrapping_sub(pos as i64).wrapping_sub(4);
            Some(new_sig(m, Kind::Global, name, bytes, Some((pos, Cap::Rel32)), adjust))
        },
        None => None,
    }
}

// ---------------------------------------------------------------------------
// Requests.

/// Requests for signature generation.
#[derive(Debug)]
pub enum Want {
    Func { name: String, rva: u32 },
    Field { name: String, class: String, offset: i32 },
    Global { name: String, rva: u32 },
}

/// Model of a request.
pub ghost enum WantV {
    Func { name: Seq<char>, rva: u32 },
    Field { name: Seq<char>, class: Seq<char>, offset: i32 },
    Global { name: Seq<char>, rva: u32 },
}

impl WantV {
    /// The name that is asked for.
    pub open spec fn name(self) -> Seq<char> {
        match self {
            WantV::Func { name, .. } => name,
            WantV::Field { name, .. } => name,
            WantV::Global { name, .. } => name,
        }
    }

    pub open spec fn kind(self) -> Kind {
        match self {
            WantV::Func { .. } => Kind::Func,
            WantV::Field { .. } => Kind::Field,
            WantV::Global { .. } => Kind::Global,
        }
    }
}

impl DeepView for Want {
    type V = WantV;

    open spec fn deep_view(&self) -> WantV {
        match self {
            Want::Func { name, rva } => WantV::Func { name: name@, rva: *rva },
            Want::Field { name, class, offset } => WantV::Field { name: name@, class: class@, offset: *offset },
            Want::Global { name, rva } => WantV::Global { name: name@, rva: *rva },
        }
    }
}

/// Sites by the global they reference.
pub type GlobalSites = Seq<(u32, Seq<u32>)>;

/// `out` with the sites of the first `n` references.
pub open spec fn ref_sites(out: GlobalSites, refs: Seq<RipRef>, n: int) -> GlobalSites
    decreases n,
{
    if n <= 0 {
        out
    } else {
        table::with_item(ref_sites(out, refs, n - 1), refs[n - 1].target, refs[n - 1].site)
    }
}

/// The sites of the references of the first `n` functions.
pub open spec fn global_sites(fs: Seq<(u32, FuncFactsV)>, n: int) -> GlobalSites
    decreases n,
{
    if n <= 0 {
        Seq::empty()
    } else {
        let f = fs[n - 1].1;
        ref_sites(global_sites(fs, n - 1), f.rip_refs, f.rip_refs.len() as int)
    }
}

/// The fields among the first `n` requests.
pub open spec fn wanted_fields(wants: Seq<WantV>, n: int) -> Seq<((Seq<char>, i32), ())>
    decreases n,
{
    if n <= 0 {
        Seq::empty()
    } else {
        let s = wanted_fields(wants, n - 1);
        match wants[n - 1] {
            WantV::Field { name, class, offset } => table::put(s, (class, offset), ()),
            _ => s,
        }
    }
}

/// The displacement of the memory operand at a site, if a pattern can capture
/// it.
pub open spec fn disp_at(pe: PeV, site: u32) -> Option<i64> {
    match analysis::insn_at(pe, site) {
        None => None,
        Some(ins) => {
            let co = site_offsets(pe, site, ins);
            if ins.mem.ip_rel || !(co.disp_size == 4 || co.disp_size == 1) {
                None
            } else {
                Some(ins.mem.disp as i64)
            }
        },
    }
}

pub fn site_disp(m: &Module, site: u32) -> (r: Option<i64>)
    ensures
        r == disp_at(m.deep_view().pe, site),
{
    match analysis::decode_at(&m.pe, site) {
        None => None,
        Some(ins) => {
            if ins.mem.ip_rel {
                return None;
            }
            let co = offsets_at(m, site, &ins);
            if co.disp_size == 4 || co.disp_size == 1 {
                Some(ins.mem.disp as i64)
            } else {
                None
            }
        },
    }
}

/// Sites with their deltas, by the field they access.
pub type FieldSites = Seq<((Seq<char>, i32), Seq<((u32, i64), ())>)>;

/// `out` with the sites of the first `n` accesses of an owned function, as far
/// as the fields are wanted.
pub open spec fn access_sites(
    w: WorldV,
    m: ModuleV,
    wanted: Seq<((Seq<char>, i32), ())>,
    out: FieldSites,
    o: OwnerV,
    fields: Seq<FieldAccess>,
    n: int,
) -> FieldSites
    decreases n,
{
    if n <= 0 {
        out
    } else {
        let s = access_sites(w, m, wanted, out, o, fields, n - 1);
        let a = fields[n - 1];
        let key = w.resolve_field(o.class, a.off.wrapping_add(o.adj));
        if a.indexed || !table::holds(wanted, key) {
            s
        } else {
            match disp_at(m.pe, a.site) {
                Some(disp) => table::with_member(s, key, (a.site, (key.1 as i64).wrapping_sub(disp))),
                None => s,
            }
        }
    }
}

/// The sites of the first `n` owned functions.
pub open spec fn field_sites(w: WorldV, m: ModuleV, wanted: Seq<((Seq<char>, i32), ())>, n: int) -> FieldSites
    decreases n,
{
    if n <= 0 {
        Seq::empty()
    } else {
        let s = field_sites(w, m, wanted, n - 1);
        match m.func(m.owner[n - 1].0) {
            Some(f) => access_sites(w, m, wanted, s, m.owner[n - 1].1, f.fields, f.fields.len() as int),
            None => s,
        }
    }
}

/// The first signature that the sites from `i` on give, among the first 24.
pub open spec fn first_global(m: ModuleV, name: Seq<char>, sites: Seq<u32>, i: int) -> Option<SigV>
    decreases sites.len() - i,
{
    if i < 0 || i >= sites.len() || i >= 24 {
        None
    } else {
        match global_sig_of(m, name, sites[i]) {
            Some(s) => Some(s),
            None => first_global(m, name, sites, i + 1),
        }
    }
}

/// The shortest signature that the first `n` sites give, the first of those.
pub open spec fn shortest_field(m: ModuleV, name: Seq<char>, sites: Seq<((u32, i64), ())>, n: int) -> Option<SigV>
    decreases n,
{
    if n <= 0 {
        None
    } else {
        let best = shortest_field(m, name, sites, n - 1);
        match field_sig_of(m, name, sites[n - 1].0.0, sites[n - 1].0.1) {
            None => best,
            Some(s) => match best {
                Some(b) => if s.bytes.len() < b.bytes.len() {
                    Some(s)
                } else {
                    Some(b)
                },
                None => Some(s),
            },
        }
    }
}

/// The signature for a request.
pub open spec fn sig_for(m: ModuleV, gs: GlobalSites, fs: FieldSites, want: WantV) -> (Seq<char>, Option<SigV>) {
    match want {
        WantV::Func { name, rva } => (name, func_sig_of(m, name, rva)),
        WantV::Global { name, rva } => (name, first_global(m, name, table::list_at(gs, rva), 0)),
        WantV::Field { name, class, offset } => {
            let sites = table::list_at(fs, (class, offset));
            (name, shortest_field(m, name, sites, pe::min(sites.len() as int, 48)))
        },
    }
}

proof fn globals_keep_name(m: ModuleV, name: Seq<char>, sites: Seq<u32>, i: int)
    ensures
        first_global(m, name, sites, i) matches Some(s) ==> s.name == name && s.kind == Kind::Global,
    decreases sites.len() - i,
{
    if 0 <= i < sites.len() {
        globals_keep_name(m, name, sites, i + 1);
    }
}

proof fn fields_keep_name(m: ModuleV, name: Seq<char>, sites: Seq<((u32, i64), ())>, n: int)
    ensures
        shortest_field(m, name, sites, n) matches Some(s) ==> s.name == name && s.kind == Kind::Field,
    decreases n,
{
    if n > 0 {
        fields_keep_name(m, name, sites, n - 1);
    }
}

/// The signature for a request has the name that was asked for, and its kind.
pub proof fn signature_keeps_name(m: ModuleV, gs: GlobalSites, fs: FieldSites, want: WantV)
    ensures
        sig_for(m, gs, fs, want).0 == want.name(),
        sig_for(m, gs, fs, want).1 matches Some(s) ==> s.name == want.name() && s.kind == want.kind(),
{
    match want {
        WantV::Func { name, rva } => {},
        WantV::Global { name, rva } => {
            globals_keep_name(m, name, table::list_at(gs, rva), 0);
        },
        WantV::Field { name, class, offset } => {
            let sites = table::list_at(fs, (class, offset));
            fields_keep_name(m, name, sites, pe::min(sites.len() as int, 48));
        },
    }
}

/// The signatures for requests to a module of the program.
pub open spec fn generated(w: WorldV, mi: int, wants: Seq<WantV>) -> Seq<(Seq<char>, Option<SigV>)> {
    let m = w.modules[mi];
    let gs = global_sites(m.code.funcs, m.code.funcs.len() as int);
    let wanted = wanted_fields(wants, wants.len() as int);
    let fs = field_sites(w, m, wanted, m.owner.len() as int);
    Seq::new(wants.len(), |i: int| sig_for(m, gs, fs, wants[i]))
}

fn find_global_sites(m: &Module) -> (r: Table<u32, Vec<u32>>)
    ensures
        r.deep_view() == global_sites(m.deep_view().code.funcs, m.deep_view().code.funcs.len() as int),
{
    let ghost fs = m.deep_view().code.funcs;
    let mut out: Table<u32, Vec<u32>> = Table::new();
    let mut i: usize = 0;
    while i < m.code.funcs.len()
        invariant
            fs == m.code.funcs.deep_view(),
            i <= fs.len(),
            out.deep_view() == global_sites(fs, i as int),
        decreases fs.len() - i,
    {
        let f = m.code.funcs.value_at(i);
        let ghost before = out.deep_view();
        let mut k: usize = 0;
        while k < f.rip_refs.len()
            invariant
                k <= f.rip_refs@.len(),
                out.deep_view() == ref_sites(before, f.rip_refs@, k as int),
            decreases f.rip_refs@.len() - k,
        {
            table::push_item(&mut out, f.rip_refs[k].target, f.rip_refs[k].site);
            k += 1;
        }
        i += 1;
    }
    out
}

fn find_wanted(wants: &Vec<Want>) -> (r: Table<(String, i32), ()>)
    ensures
        r.deep_view() == wanted_fields(wants.deep_view(), wants@.len() as int),
{
    let ghost w = wants.deep_view();
    let mut out: Table<(String, i32), ()> = Table::new();
    let mut i: usize = 0;
    while i < wants.len()
        invariant
            w == wants.deep_view(),
            i <= wants@.len(),
            out.deep_view() == wanted_fields(w, i as int),
        decreases wants@.len() - i,
    {
        assert(wants@[i as int].deep_view() == w[i as int]);
        if let Want::Field { name, class, offset } = &wants[i] {
            let key = (class.clone(), *offset);
            assert(key.key() == (class@, *offset));
            out.insert(key, ());
        }
        i += 1;
    }
    out
}

fn find_field_sites(w: &World, m: &Module, wanted: &Table<(String, i32), ()>) -> (r: Table<
    (String, i32),
    Table<(u32, i64), ()>,
>)
    ensures
        r.deep_view() == field_sites(
            w.deep_view(),
            m.deep_view(),
            wanted.deep_view(),
            m.deep_view().owner.len() as int,
        ),
{
    let ghost wv = w.deep_view();
    let ghost mv = m.deep_view();
    let ghost wt = wanted.deep_view();
    let mut out: Table<(String, i32), Table<(u32, i64), ()>> = Table::new();
    let mut i: usize = 0;
    while i < m.owner.len()
        invariant
            wv == w.deep_view(),
            mv == m.deep_view(),
            wt == wanted.deep_view(),
            i <= mv.owner.len(),
            out.deep_view() == field_sites(wv, mv, wt, i as int),
        decreases mv.owner.len() - i,
    {
        let o = m.owner.value_at(i);
        if let Some(f) = m.func(*m.owner.key_at(i)) {
            let ghost before = out.deep_view();
            let mut k: usize = 0;
            while k < f.fields.len()
                invariant
                    wv == w.deep_view(),
                    mv == m.deep_view(),
                    wt == wanted.deep_view(),
                    k <= f.fields@.len(),
                    out.deep_view() == access_sites(wv, mv, wt, before, o.deep_view(), f.fields@, k as int),
                decreases f.fields@.len() - k,
            {
                let a = f.fields[k];
                if !a.indexed {
                    let key = w.resolve_field(o.class.as_str(), a.off.wrapping_add(o.adj));
                    assert(key.key() == key.deep_view());
                    if wanted.contains(&key) {
                        if let Some(disp) = site_disp(m, a.site) {
                            let off = key.1 as i64;
                            let site = (a.site, off.wrapping_sub(disp));
                            assert(site.key() == site);
                            table::add_member(&mut out, key, site);
                        }
                    }
                }
                k += 1;
            }
        }
        i += 1;
    }
    out
}

fn find_first_global(m: &Module, name: &str, sites: &Vec<u32>) -> (r: Option<Sig>)
    ensures
        r.deep_view() == first_global(m.deep_view(), name@, sites@, 0),
{
    let ghost mv = m.deep_view();
    let mut i: usize = 0;
    while i < sites.len() && i < 24
        invariant
            mv == m.deep_view(),
            i <= sites@.len(),
            first_global(mv, name@, sites@, 0) == first_global(mv, name@, sites@, i as int),
        decreases sites@.len() - i,
    {
        if let Some(s) = global_sig(m, name, sites[i]) {
            return Some(s);
        }
        i += 1;
    }
    None
}

fn find_shortest_field(m: &Module, name: &str, sites: &Table<(u32, i64), ()>) -> (r: Option<Sig>)
    ensures
        r.deep_view() == shortest_field(
            m.deep_view(),
            name@,
            sites.deep_view(),
            pe::min(sites.deep_view().len() as int, 48),
        ),
{
    let ghost mv = m.deep_view();
    let ghost ss = sites.deep_view();
    let n: usize = if sites.len() < 48 { sites.len() } else { 48 };
    let mut best: Option<Sig> = None;
    let mut i: usize = 0;
    while i < n
        invariant
            mv == m.deep_view(),
            ss == sites.deep_view(),
            n <= ss.len(),
            i <= n,
            best.deep_view() == shortest_field(mv, name@, ss, i as int),
        decreases n - i,
    {
        let site = sites.key_at(i);
        let (at, delta) = (site.0, site.1);
        if let Some(s) = field_sig(m, name, at, delta) {
            let better = match &best {
                Some(b) => s.bytes.len() < b.bytes.len(),
                None => true,
            };
            if better {
                best = Some(s);
            }
        }
        i += 1;
    }
    best
}

pub fn generate(world: &World, mi: usize, wants: &Vec<Want>) -> (r: Vec<(String, Option<Sig>)>)
    requires
        mi < world.modules@.len(),
    ensures
        r.deep_view() == generated(world.deep_view(), mi as int, wants.deep_view()),
{
    let m = &world.modules[mi];
    let ghost wv = world.deep_view();
    let ghost mv = m.deep_view();
    assert(mv == wv.modules[mi as int]);
    let ghost ws = wants.deep_view();
    let gsites = find_global_sites(m);
    let wanted = find_wanted(wants);
    let fsites = find_field_sites(world, m, &wanted);
    let ghost gs = gsites.deep_view();
    let ghost fs = fsites.deep_view();
    let ghost all = generated(wv, mi as int, ws);
    let mut out: Vec<(String, Option<Sig>)> = Vec::new();
    let mut i: usize = 0;
    assert(out.deep_view() =~= all.take(0));
    while i < wants.len()
        invariant
            mv == m.deep_view(),
            ws == wants.deep_view(),
            gs == gsites.deep_view(),
            fs == fsites.deep_view(),
            all.len() == ws.len(),
            forall|k: int| 0 <= k < ws.len() ==> #[trigger] all[k] == sig_for(mv, gs, fs, ws[k]),
            i <= wants@.len(),
            out.deep_view() == all.take(i as int),
        decreases wants@.len() - i,
    {
        assert(wants@[i as int].deep_view() == ws[i as int]);
        let row = match &wants[i] {
            Want::Func { name, rva } => (name.clone(), func_sig(m, name.as_str(), *rva)),
            Want::Global { name, rva } => {
                let s = match gsites.get(rva) {
                    Some(sites) => {
                        assert(sites.deep_view() =~= sites@);
                        find_first_global(m, name.as_str(), sites)
                    },
                    None => None,
                };
                (name.clone(), s)
            },
            Want::Field { name, class, offset } => {
                let key = (class.clone(), *offset);
                assert(key.key() == (class@, *offset));
                let s = match fsites.get(&key) {
                    Some(sites) => find_shortest_field(m, name.as_str(), sites),
                    None => None,
                };
                (name.clone(), s)
            },
        };
        let ghost before = out.deep_view();
        let ghost x = row.deep_view();
        assert(x == all[i as int]);
        out.push(row);
        i += 1;
        assert(out.deep_view() =~= before.push(x));
        assert(all.take(i as int) =~= before.push(all[i - 1]));
    }
    assert(all.take(i as int) =~= all);
    out
}

// ---------------------------------------------------------------------------
// Laws.

/// How many bytes the first `k` instructions take.
pub open spec fn code_len(insns: Seq<Insn>, k: int) -> int
    decreases k,
{
    if k <= 0 {
        0
    } else {
        code_len(insns, k - 1) + insns[k - 1].head.len
    }
}

proof fn code_len_front(insns: Seq<Insn>, rest: Seq<Insn>, k: int)
    requires
        insns.len() == rest.len() + 1,
        forall|i: int| 0 <= i < rest.len() ==> insns[i + 1] == #[trigger] rest[i],
        1 <= k <= insns.len(),
    ensures
        code_len(insns, k) == insns[0].head.len + code_len(rest, k - 1),
    decreases k,
{
    if k > 1 {
        code_len_front(insns, rest, k - 1);
        assert(insns[k - 1] == rest[k - 2]);
    } else {
        assert(code_len(insns, 0) == 0);
    }
}

proof fn code_len_grows(insns: Seq<Insn>, k: int)
    ensures
        code_len(insns, k) >= 0,
    decreases k,
{
    if k > 0 {
        code_len_grows(insns, k - 1);
    }
}

/// Decoded instructions follow one another.
proof fn decoded_follow(bytes: Seq<u8>, va: u64, pos: int, k: int)
    requires
        0 <= pos,
        bytes.len() <= u32::MAX,
        0 <= k < decoded(bytes, va, pos).len(),
    ensures
        ({
            let d = decoded(bytes, va, pos);
            let at = pos + code_len(d, k);
            &&& pos <= at < bytes.len()
            &&& d[k].ip == va.wrapping_add(at as u64)
            &&& k + 1 < d.len() ==> at + d[k].head.len <= bytes.len()
        }),
    decreases bytes.len() - pos,
{
    let d = decoded(bytes, va, pos);
    let ins = insn::insn(bytes.skip(pos), va.wrapping_add(pos as u64));
    assert(d[0] == ins);
    if k > 0 {
        let rest = decoded(bytes, va, pos + ins.head.len);
        assert(d =~= seq![ins] + rest);
        decoded_follow(bytes, va, pos + ins.head.len, k - 1);
        code_len_front(d, rest, k);
        assert(d[k] == rest[k - 1]);
    }
}

/// A pattern says of the bytes at an address what they are.
pub open spec fn holds_at(pe: PeV, at: int, pat: Seq<Option<u8>>) -> bool {
    0 <= at && at + pat.len() <= pe.image.len() && forall|j: int|
        0 <= j < pat.len() && (#[trigger] pat[j]) is Some ==> pat[j].unwrap() == pe.image[at + j]
}

proof fn holds_both(pe: PeV, at: int, a: Seq<Option<u8>>, b: Seq<Option<u8>>)
    requires
        holds_at(pe, at, a),
        holds_at(pe, at + a.len(), b),
    ensures
        holds_at(pe, at, a + b),
{
    let p = a + b;
    assert forall|j: int| 0 <= j < p.len() && (#[trigger] p[j]) is Some implies p[j].unwrap() == pe.image[at + j] by {
        if j < a.len() {
            assert(p[j] == a[j]);
        } else {
            assert(p[j] == b[j - a.len()]);
        }
    }
}

/// The masked bytes of an instruction hold where it stands.
proof fn masked_holds(pe: PeV, ins: Insn, keep_disp: bool, at: u32)
    requires
        pe.image.len() <= u32::MAX,
        at < pe.image.len(),
        ins.ip == pe.rva_to_va(at),
    ensures
        holds_at(pe, at as int, masked_bytes(pe, ins, keep_disp)),
        raw_bytes(pe, ins) == pe.bytes(at, ins.head.len as int),
        masked_bytes(pe, ins, keep_disp).len() == raw_bytes(pe, ins).len(),
        at + ins.head.len <= pe.image.len() ==> masked_bytes(pe, ins, keep_disp).len() == ins.head.len,
{
    assert(ins.ip.wrapping_sub(pe.image_base) == at as u64);
    let raw = raw_bytes(pe, ins);
    let pat = masked_bytes(pe, ins, keep_disp);
    assert forall|j: int| 0 <= j < pat.len() && (#[trigger] pat[j]) is Some implies pat[j].unwrap() == pe.image[at + j] by {
        assert(pat[j].unwrap() == raw[j]);
    }
}

/// Bytes that replace those of the first instruction, and hold where it stands.
pub open spec fn special_holds(pe: PeV, insns: Seq<Insn>, special: SpecialV, at: int) -> bool {
    match special {
        Some((idx, bytes)) => idx == 0 && holds_at(pe, at, bytes) && insns.len() > 0 && (at + insns[0].head.len
            <= pe.image.len() ==> bytes.len() == insns[0].head.len),
        None => true,
    }
}

/// A pattern grown from the code at an address holds there.
proof fn grown_holds(
    pe: PeV,
    rva: u32,
    max: int,
    special: SpecialV,
    min_fixed: int,
    k: int,
    pat: Seq<Option<u8>>,
    cands: Option<Seq<u32>>,
)
    requires
        pe.image.len() <= u32::MAX,
        rva < pe.image.len(),
        0 <= max <= u32::MAX,
        special_holds(pe, code_from(pe, rva, max), special, rva as int),
        0 <= k,
        k < code_from(pe, rva, max).len() ==> pat.len() == code_len(code_from(pe, rva, max), k),
        holds_at(pe, rva as int, pat),
    ensures
        grown_from(pe, code_from(pe, rva, max), special, min_fixed, k, pat, cands) matches Some(p) ==> holds_at(
            pe,
            rva as int,
            p,
        ),
    decreases code_from(pe, rva, max).len() - k,
{
    let insns = code_from(pe, rva, max);
    if k < insns.len() {
        let bytes = pe.bytes(rva, max);
        let va = pe.rva_to_va(rva);
        decoded_follow(bytes, va, 0, k);
        code_len_grows(insns, k);
        let at = code_len(insns, k);
        assert(rva + at < pe.image.len());
        let here = (rva + at) as u32;
        assert(insns[k].ip == pe.rva_to_va(here));
        masked_holds(pe, insns[k], false, here);
        let part = part_of(pe, insns, special, k);
        assert(holds_at(pe, rva + at, part));
        let p = pat + part;
        holds_both(pe, rva as int, pat, part);
        if k + 1 < insns.len() {
            assert(rva + at + insns[k].head.len <= pe.image.len());
            assert(part.len() == insns[k].head.len);
        }
        let c = match cands {
            None => sigs::scanned(pe, p, 4096),
            Some(prev) => still_matching(pe, prev, p, prev.len() as int),
        };
        let next = if c.len() >= 4096 {
            None
        } else {
            Some(c)
        };
        grown_holds(pe, rva, max, special, min_fixed, k + 1, p, cands);
        grown_holds(pe, rva, max, special, min_fixed, k + 1, p, next);
    }
}

proof fn grown_at(pe: PeV, rva: u32, max: int, special: SpecialV, min_fixed: int)
    requires
        pe.image.len() <= u32::MAX,
        rva < pe.image.len(),
        0 <= max <= u32::MAX,
        special_holds(pe, code_from(pe, rva, max), special, rva as int),
    ensures
        grown(pe, code_from(pe, rva, max), special, min_fixed) matches Some(p) ==> holds_at(pe, rva as int, p),
{
    grown_holds(pe, rva, max, special, min_fixed, 0, Seq::empty(), None);
}

/// A pattern that holds at an address fits the bytes there.
pub proof fn holding_fits(pe: PeV, at: u32, pat: Seq<Option<u8>>)
    requires
        holds_at(pe, at as int, pat),
    ensures
        sigs::fits(pe.bytes(at, pat.len() as int), 0, pat),
{
    let b = pe.bytes(at, pat.len() as int);
    assert(b.len() == pat.len());
    assert forall|i: int| 0 <= i < pat.len() && (#[trigger] pat[i]) is Some implies b[0 + i] == pat[i].unwrap() by {
        assert(b[i] == pe.image[at + i]);
    }
}

/// The signature that a function gets from its first bytes fits them.
pub proof fn function_pattern_fits(m: ModuleV, name: Seq<char>, rva: u32)
    requires
        m.pe.image.len() <= u32::MAX,
        rva < m.pe.image.len(),
    ensures
        func_sig_of(m, name, rva) matches Some(s) ==> s.capture is None ==> sigs::fits(
            m.pe.bytes(rva, s.bytes.len() as int),
            0,
            s.bytes,
        ),
{
    grown_at(m.pe, rva, window(m, rva), None, 6);
    if let Some(p) = grown(m.pe, code_from(m.pe, rva, window(m, rva)), None, 6) {
        holding_fits(m.pe, rva, p);
    }
}

/// The signature that captures a field's displacement fits the access it comes
/// from.
pub proof fn field_pattern_fits(m: ModuleV, name: Seq<char>, site: u32, delta: i64)
    requires
        m.pe.image.len() <= u32::MAX,
        site < m.pe.image.len(),
    ensures
        field_sig_of(m, name, site, delta) matches Some(s) ==> sigs::fits(
            m.pe.bytes(site, s.bytes.len() as int),
            0,
            s.bytes,
        ),
{
    let insns = code_from(m.pe, site, MAX_SIG as int);
    if insns.len() > 0 {
        let first = insns[0];
        decoded_follow(m.pe.bytes(site, MAX_SIG as int), m.pe.rva_to_va(site), 0, 0);
        masked_holds(m.pe, first, true, site);
        let co = site_offsets(m.pe, site, first);
        if let Some((pos, cap)) = disp_capture(co) {
            let raw = masked_bytes(m.pe, first, true);
            let sp = captured(raw, pos, cap);
            assert forall|j: int| 0 <= j < sp.len() && (#[trigger] sp[j]) is Some implies sp[j].unwrap()
                == m.pe.image[site + j] by {
                assert(sp[j] == raw[j]);
            }
            grown_at(m.pe, site, MAX_SIG as int, Some((0, sp)), 6);
            if let Some(p) = grown(m.pe, insns, Some((0, sp)), 6) {
                holding_fits(m.pe, site, p);
            }
        }
    }
}

/// The signature that captures a global's address fits the reference it comes
/// from.
pub proof fn global_pattern_fits(m: ModuleV, name: Seq<char>, site: u32)
    requires
        m.pe.image.len() <= u32::MAX,
        site < m.pe.image.len(),
    ensures
        global_sig_of(m, name, site) matches Some(s) ==> sigs::fits(
            m.pe.bytes(site, s.bytes.len() as int),
            0,
            s.bytes,
        ),
{
    let insns = code_from(m.pe, site, MAX_SIG as int);
    if insns.len() > 0 {
        let first = insns[0];
        decoded_follow(m.pe.bytes(site, MAX_SIG as int), m.pe.rva_to_va(site), 0, 0);
        masked_holds(m.pe, first, false, site);
        let sp = masked_bytes(m.pe, first, false);
        grown_at(m.pe, site, MAX_SIG as int, Some((0, sp)), 5);
        if let Some(p) = grown(m.pe, insns, Some((0, sp)), 5) {
            holding_fits(m.pe, site, p);
        }
    }
}

proof fn fixed_found(pat: Seq<Option<u8>>, n: int)
    requires
        0 <= n <= pat.len(),
        fixed_count(pat, n) > 0,
    ensures
        sigs::has_fixed(pat),
    decreases n,
{
    if n > 0 {
        if pat[n - 1] is None {
            fixed_found(pat, n - 1);
        }
    }
}

/// What grows from `k` on starts with what has grown so far, and has the fixed
/// bytes asked for.
proof fn grown_extends(
    pe: PeV,
    insns: Seq<Insn>,
    special: SpecialV,
    min_fixed: int,
    k: int,
    pat: Seq<Option<u8>>,
    cands: Option<Seq<u32>>,
)
    ensures
        grown_from(pe, insns, special, min_fixed, k, pat, cands) matches Some(p) ==> fixed_count(p, p.len() as int)
            >= min_fixed && p.len() <= MAX_SIG && pat.len() <= p.len() && p.take(pat.len() as int) == pat && (k
            < insns.len() ==> p.len() >= pat.len() + part_of(pe, insns, special, k).len() && p.take(
            (pat.len() + part_of(pe, insns, special, k).len()) as int,
        ) == pat + part_of(pe, insns, special, k)),
    decreases insns.len() - k,
{
    if 0 <= k < insns.len() {
        let p = pat + part_of(pe, insns, special, k);
        let c = match cands {
            None => sigs::scanned(pe, p, 4096),
            Some(prev) => still_matching(pe, prev, p, prev.len() as int),
        };
        let next = if c.len() >= 4096 {
            None
        } else {
            Some(c)
        };
        grown_extends(pe, insns, special, min_fixed, k + 1, p, cands);
        grown_extends(pe, insns, special, min_fixed, k + 1, p, next);
        assert(p.take(p.len() as int) =~= p);
        assert(p.take(pat.len() as int) =~= pat);
        if let Some(q) = grown_from(pe, insns, special, min_fixed, k, pat, cands) {
            assert(q.take(pat.len() as int) =~= q.take(p.len() as int).take(pat.len() as int));
        }
    }
}

proof fn call_pattern_captures(m: ModuleV, c: CallSite, rva: u32)
    ensures
        call_pattern(m, c, rva) matches Some(Some(p)) ==> sigs::has_fixed(p) && p.len() <= MAX_SIG
            && crate::archive::captures_well(p, Some((1, Cap::Rel32))),
{
    let insns = code_from(m.pe, c.site, MAX_SIG as int);
    if let Some(Some(p)) = call_pattern(m, c, rva) {
        let b = pe::byte(m.pe.image, c.site as int).unwrap();
        let special = Some((0int, call_bytes(b)));
        grown_extends(m.pe, insns, special, 6, 0, Seq::empty(), None);
        fixed_found(p, p.len() as int);
        let head = Seq::<Option<u8>>::empty() + call_bytes(b);
        assert(p.take(5) == head);
        assert forall|k: int| 1 <= k < 5 implies #[trigger] p[k] is None by {
            assert(p[k] == p.take(5)[k]);
            assert(head[k] == call_bytes(b)[k]);
        }
    }
}

proof fn calls_pattern_captures(m: ModuleV, calls: Seq<CallSite>, rva: u32, j: int)
    ensures
        calls_pattern(m, calls, rva, j) matches Some(Some(p)) ==> sigs::has_fixed(p) && p.len() <= MAX_SIG
            && crate::archive::captures_well(p, Some((1, Cap::Rel32))),
    decreases calls.len() - j,
{
    if 0 <= j < calls.len() {
        call_pattern_captures(m, calls[j], rva);
        calls_pattern_captures(m, calls, rva, j + 1);
    }
}

proof fn callers_pattern_captures(m: ModuleV, rva: u32, i: int)
    ensures
        callers_pattern(m, rva, i) matches Some(p) ==> sigs::has_fixed(p) && p.len() <= MAX_SIG
            && crate::archive::captures_well(p, Some((1, Cap::Rel32))),
    decreases m.code.funcs.len() - i,
{
    if 0 <= i < m.code.funcs.len() {
        calls_pattern_captures(m, m.code.funcs[i].1.calls, rva, 0);
        callers_pattern_captures(m, rva, i + 1);
    }
}

/// The signature that a function gets can be written to a file and read back,
/// where its name is one word without a comment.
pub proof fn function_signature_is_writable(m: ModuleV, name: Seq<char>, rva: u32)
    requires
        crate::archive::is_plain(name),
    ensures
        func_sig_of(m, name, rva) matches Some(s) ==> s.writable(),
{
    let insns = code_from(m.pe, rva, window(m, rva));
    grown_extends(m.pe, insns, None, 6, 0, Seq::empty(), None);
    if let Some(p) = grown(m.pe, insns, None, 6) {
        fixed_found(p, p.len() as int);
    }
    callers_pattern_captures(m, rva, 0);
}

// ---------------------------------------------------------------------------
// Uniqueness.

/// `a` is `b` with some elements left out.
spec fn part_of_list(a: Seq<u32>, b: Seq<u32>) -> bool
    decreases b.len(),
{
    a.len() == 0 || (b.len() > 0 && ((a.last() == b.last() && part_of_list(a.drop_last(), b.drop_last())) || part_of_list(
        a,
        b.drop_last(),
    )))
}

proof fn part_is_shorter(a: Seq<u32>, b: Seq<u32>)
    requires
        part_of_list(a, b),
    ensures
        a.len() <= b.len(),
    decreases b.len(),
{
    if a.len() > 0 {
        if a.last() == b.last() && part_of_list(a.drop_last(), b.drop_last()) {
            part_is_shorter(a.drop_last(), b.drop_last());
        } else {
            part_is_shorter(a, b.drop_last());
        }
    }
}

proof fn part_of_itself(a: Seq<u32>)
    ensures
        part_of_list(a, a),
    decreases a.len(),
{
    if a.len() > 0 {
        part_of_itself(a.drop_last());
    }
}

proof fn part_of_part(a: Seq<u32>, b: Seq<u32>, c: Seq<u32>)
    requires
        part_of_list(a, b),
        part_of_list(b, c),
    ensures
        part_of_list(a, c),
    decreases c.len(),
{
    if a.len() > 0 {
        if b.last() == c.last() && part_of_list(b.drop_last(), c.drop_last()) {
            if a.last() == b.last() && part_of_list(a.drop_last(), b.drop_last()) {
                part_of_part(a.drop_last(), b.drop_last(), c.drop_last());
            } else {
                part_of_part(a, b.drop_last(), c.drop_last());
            }
        } else {
            part_of_part(a, b, c.drop_last());
        }
    }
}

proof fn part_of_joined(a: Seq<u32>, b: Seq<u32>, c: Seq<u32>, d: Seq<u32>)
    requires
        part_of_list(a, b),
        part_of_list(c, d),
    ensures
        part_of_list(a + c, b + d),
    decreases d.len(),
{
    if d.len() == 0 {
        assert(a + c =~= a);
        assert(b + d =~= b);
    } else {
        assert((b + d).drop_last() =~= b + d.drop_last());
        assert((b + d).last() == d.last());
        if c.len() == 0 {
            part_of_joined(a, b, c, d.drop_last());
        } else if c.last() == d.last() && part_of_list(c.drop_last(), d.drop_last()) {
            part_of_joined(a, b, c.drop_last(), d.drop_last());
            assert((a + c).drop_last() =~= a + c.drop_last());
        } else {
            part_of_joined(a, b, c, d.drop_last());
        }
    }
}

/// A pattern fits the bytes at an address.
spec fn fits_at(pe: PeV, at: u32, pat: Seq<Option<u8>>) -> bool {
    sigs::fits(pe.bytes(at, pat.len() as int), 0, pat)
}

proof fn matching_same(pe: PeV, a: Seq<u32>, b: Seq<u32>, pat: Seq<Option<u8>>, n: int)
    requires
        n <= a.len(),
        n <= b.len(),
        forall|i: int| 0 <= i < n ==> a[i] == b[i],
    ensures
        still_matching(pe, a, pat, n) == still_matching(pe, b, pat, n),
    decreases n,
{
    if n > 0 {
        matching_same(pe, a, b, pat, n - 1);
    }
}

/// What still matches is kept by the filter.
proof fn part_of_matching(pe: PeV, a: Seq<u32>, b: Seq<u32>, pat: Seq<Option<u8>>)
    requires
        part_of_list(a, b),
        forall|i: int| 0 <= i < a.len() ==> fits_at(pe, #[trigger] a[i], pat),
    ensures
        part_of_list(a, still_matching(pe, b, pat, b.len() as int)),
    decreases b.len(),
{
    if a.len() > 0 {
        let t = b.drop_last();
        let n = b.len() as int;
        matching_same(pe, b, t, pat, n - 1);
        let kept = still_matching(pe, b, pat, n);
        let before = still_matching(pe, t, pat, n - 1);
        if a.last() == b.last() && part_of_list(a.drop_last(), t) {
            let u = a.drop_last();
            assert forall|i: int| 0 <= i < u.len() implies fits_at(pe, #[trigger] u[i], pat) by {
                assert(u[i] == a[i]);
            }
            part_of_matching(pe, u, t, pat);
            assert(fits_at(pe, a[a.len() - 1], pat));
            assert(kept == before.push(b.last()));
            assert(kept.drop_last() =~= before);
        } else {
            part_of_matching(pe, a, t, pat);
            if kept != before {
                assert(kept.drop_last() =~= before);
            }
        }
    }
}

/// `q` starts with `p`.
spec fn starts_as(q: Seq<Option<u8>>, p: Seq<Option<u8>>) -> bool {
    p.len() <= q.len() && forall|i: int| 0 <= i < p.len() ==> #[trigger] p[i] == q[i]
}

proof fn hits_narrow(hay: Seq<u8>, rva: u32, p: Seq<Option<u8>>, q: Seq<Option<u8>>, n: int)
    requires
        starts_as(q, p),
    ensures
        part_of_list(sigs::hits_before(hay, rva, q, n), sigs::hits_before(hay, rva, p, n)),
    decreases n,
{
    if n > 0 {
        hits_narrow(hay, rva, p, q, n - 1);
        let a = sigs::hits_before(hay, rva, q, n - 1);
        let b = sigs::hits_before(hay, rva, p, n - 1);
        let x = rva.wrapping_add((n - 1) as u32);
        if sigs::fits(hay, n - 1, q) {
            assert forall|i: int| 0 <= i < p.len() && (#[trigger] p[i]) is Some implies hay[n - 1 + i] == p[i].unwrap() by {
                assert(q[i] == p[i]);
                assert(q[i] is Some);
            }
            assert(sigs::fits(hay, n - 1, p));
            assert(a.push(x).drop_last() =~= a);
            assert(b.push(x).drop_last() =~= b);
        } else if sigs::fits(hay, n - 1, p) {
            assert(b.push(x).drop_last() =~= b);
        }
    }
}

proof fn matches_narrow(pe: PeV, p: Seq<Option<u8>>, q: Seq<Option<u8>>, n: int)
    requires
        starts_as(q, p),
    ensures
        part_of_list(sigs::matches_of(pe, q, n), sigs::matches_of(pe, p, n)),
    decreases n,
{
    if n > 0 {
        matches_narrow(pe, p, q, n - 1);
        let sec = pe.exec_sections()[n - 1];
        let hay = pe.bytes(sec.rva, sec.vsize as int);
        hits_narrow(hay, sec.rva, p, q, hay.len() as int + 1);
        part_of_joined(
            sigs::matches_of(pe, q, n - 1),
            sigs::matches_of(pe, p, n - 1),
            sigs::hits_in(hay, sec.rva, q),
            sigs::hits_in(hay, sec.rva, p),
        );
    }
}

proof fn matches_fit(pe: PeV, pat: Seq<Option<u8>>)
    requires
        pe.image.len() <= u32::MAX,
    ensures
        forall|i: int|
            0 <= i < sigs::all_matches(pe, pat).len() ==> fits_at(pe, #[trigger] sigs::all_matches(pe, pat)[i], pat),
{
    let all = sigs::all_matches(pe, pat);
    assert forall|i: int| 0 <= i < all.len() implies fits_at(pe, #[trigger] all[i], pat) by {
        sigs::matches_are_real(pe, pat, i);
        let at = all[i];
        let (k, start) = choose|k: int, start: int|
            0 <= k < pe.exec_sections().len() && #[trigger] sigs::fits(
                pe.bytes(pe.exec_sections()[k].rva, pe.exec_sections()[k].vsize as int),
                start,
                pat,
            ) && at == pe.exec_sections()[k].rva.wrapping_add(start as u32);
        let sec = pe.exec_sections()[k];
        let hay = pe.bytes(sec.rva, sec.vsize as int);
        let own = pe.bytes(at, pat.len() as int);
        if pat.len() > 0 {
            assert(at == sec.rva + start);
            assert forall|j: int| 0 <= j < pat.len() && (#[trigger] pat[j]) is Some implies own[0 + j] == pat[j].unwrap() by {
                assert(hay[start + j] == pat[j].unwrap());
                assert(hay[start + j] == pe.image[sec.rva + (start + j)]);
                assert(own[j] == pe.image[at + j]);
            }
        }
    }
}

/// A pattern that grew until it was unique has one match at most.
proof fn grown_is_unique(
    pe: PeV,
    insns: Seq<Insn>,
    special: SpecialV,
    min_fixed: int,
    k: int,
    pat: Seq<Option<u8>>,
    cands: Option<Seq<u32>>,
)
    requires
        pe.image.len() <= u32::MAX,
        cands matches Some(prev) ==> part_of_list(sigs::all_matches(pe, pat), prev),
    ensures
        grown_from(pe, insns, special, min_fixed, k, pat, cands) matches Some(p) ==> sigs::all_matches(pe, p).len() <= 1,
    decreases insns.len() - k,
{
    if 0 <= k < insns.len() {
        let p = pat + part_of(pe, insns, special, k);
        let all = sigs::all_matches(pe, p);
        assert(starts_as(p, pat));
        matches_narrow(pe, pat, p, pe.exec_sections().len() as int);
        matches_fit(pe, p);
        if let Some(prev) = cands {
            part_of_part(all, sigs::all_matches(pe, pat), prev);
            part_of_matching(pe, all, prev, p);
        }
        part_of_itself(all);
        grown_is_unique(pe, insns, special, min_fixed, k + 1, p, cands);
        let c = match cands {
            None => sigs::scanned(pe, p, 4096),
            Some(prev) => still_matching(pe, prev, p, prev.len() as int),
        };
        if c.len() < 4096 {
            assert(part_of_list(all, c));
            part_is_shorter(all, c);
            grown_is_unique(pe, insns, special, min_fixed, k + 1, p, Some(c));
        } else {
            grown_is_unique(pe, insns, special, min_fixed, k + 1, p, None);
        }
    }
}

/// `len` bytes from an address on lie inside an executable section.
pub open spec fn in_code(pe: PeV, at: u32, len: nat) -> bool {
    exists|k: int|
        0 <= k < pe.exec_sections().len() && (#[trigger] pe.exec_sections()[k]).rva <= at && at - pe.exec_sections()[k].rva
            + len <= pe.bytes(pe.exec_sections()[k].rva, pe.exec_sections()[k].vsize as int).len()
}

/// A pattern that holds at an address in the code is found there.
proof fn holding_is_found(pe: PeV, at: u32, pat: Seq<Option<u8>>)
    requires
        in_code(pe, at, pat.len()),
        holds_at(pe, at as int, pat),
    ensures
        sigs::all_matches(pe, pat).contains(at),
{
    let k = choose|k: int|
        0 <= k < pe.exec_sections().len() && (#[trigger] pe.exec_sections()[k]).rva <= at && at - pe.exec_sections()[k].rva
            + pat.len() <= pe.bytes(pe.exec_sections()[k].rva, pe.exec_sections()[k].vsize as int).len();
    let sec = pe.exec_sections()[k];
    let hay = pe.bytes(sec.rva, sec.vsize as int);
    let start = at - sec.rva;
    assert forall|i: int| 0 <= i < pat.len() && (#[trigger] pat[i]) is Some implies hay[start + i] == pat[i].unwrap() by {
        assert(hay[start + i] == pe.image[sec.rva + (start + i)]);
    }
    assert(sigs::fits(hay, start, pat));
    sigs::scan_finds_all(pe, pat, k, start);
}

/// A pattern grown from code is found at that code and nowhere else.
pub proof fn pattern_is_unique(pe: PeV, at: u32, max: int, special: SpecialV, min_fixed: int)
    requires
        pe.image.len() <= u32::MAX,
        at < pe.image.len(),
        0 <= max <= u32::MAX,
        special_holds(pe, code_from(pe, at, max), special, at as int),
        grown(pe, code_from(pe, at, max), special, min_fixed) matches Some(p) && in_code(pe, at, p.len()),
    ensures
        grown(pe, code_from(pe, at, max), special, min_fixed) matches Some(p) && sigs::all_matches(pe, p) == seq![at],
{
    let insns = code_from(pe, at, max);
    let p = grown(pe, insns, special, min_fixed).unwrap();
    grown_at(pe, at, max, special, min_fixed);
    grown_is_unique(pe, insns, special, min_fixed, 0, Seq::empty(), None);
    holding_is_found(pe, at, p);
    let all = sigs::all_matches(pe, p);
    let j = choose|j: int| 0 <= j < all.len() && all[j] == at;
    assert(all =~= seq![at]);
}

/// What a signature whose pattern is found once resolves to.
proof fn applied_at(pe: PeV, s: SigV, at: u32)
    requires
        sigs::all_matches(pe, s.bytes) == seq![at],
    ensures
        sigs::applied(pe, s).matches == 1,
        sigs::applied(pe, s).value == sigs::resolved(pe, s, at),
{
}

/// A call site whose pattern lies in the code calls the function: its last four
/// bytes are the distance to it.
pub open spec fn call_reaches(m: ModuleV, c: CallSite, rva: u32) -> bool {
    call_pattern(m, c, rva) matches Some(Some(p)) ==> in_code(m.pe, c.site, p.len()) && (m.pe.i32(c.site + 1) matches Some(d)
        && c.site + 5 + d == rva)
}

proof fn call_pattern_found(m: ModuleV, c: CallSite, rva: u32)
    requires
        m.pe.image.len() <= u32::MAX,
        call_reaches(m, c, rva),
    ensures
        call_pattern(m, c, rva) matches Some(Some(p)) ==> sigs::all_matches(m.pe, p) == seq![c.site],
{
    if let Some(Some(p)) = call_pattern(m, c, rva) {
        let insns = code_from(m.pe, c.site, MAX_SIG as int);
        let b = pe::byte(m.pe.image, c.site as int).unwrap();
        let sp = call_bytes(b);
        call_pattern_captures(m, c, rva);
        assert(c.site + 5 <= m.pe.image.len());
        assert(holds_at(m.pe, c.site as int, sp)) by {
            assert forall|j: int| 0 <= j < sp.len() && (#[trigger] sp[j]) is Some implies sp[j].unwrap() == m.pe.image[c.site
                + j] by {
                assert(j == 0);
            }
        }
        pattern_is_unique(m.pe, c.site, MAX_SIG as int, Some((0, sp)), 6);
    }
}

/// The calls of a function from `j` on give the pattern of one of them.
proof fn calls_pattern_site(m: ModuleV, calls: Seq<CallSite>, rva: u32, j: int) -> (k: int)
    requires
        calls_pattern(m, calls, rva, j) matches Some(Some(p)),
    ensures
        0 <= k < calls.len(),
        call_pattern(m, calls[k], rva) == calls_pattern(m, calls, rva, j),
    decreases calls.len() - j,
{
    if call_pattern(m, calls[j], rva) is Some {
        j
    } else {
        calls_pattern_site(m, calls, rva, j + 1)
    }
}

proof fn callers_pattern_site(m: ModuleV, rva: u32, i: int) -> (r: (int, int))
    requires
        callers_pattern(m, rva, i) is Some,
    ensures
        0 <= r.0 < m.code.funcs.len(),
        0 <= r.1 < m.code.funcs[r.0].1.calls.len(),
        call_pattern(m, m.code.funcs[r.0].1.calls[r.1], rva) == Some(callers_pattern(m, rva, i)),
    decreases m.code.funcs.len() - i,
{
    let calls = m.code.funcs[i].1.calls;
    if calls_pattern(m, calls, rva, 0) is Some {
        (i, calls_pattern_site(m, calls, rva, 0))
    } else {
        callers_pattern_site(m, rva, i + 1)
    }
}

/// A signature that a function gets resolves to that function, and to nothing
/// else: its pattern is found once. The code that the pattern describes lies
/// inside an executable section, and where it is the code of a call, that call
/// reaches the function.
pub proof fn function_is_found_again(m: ModuleV, name: Seq<char>, rva: u32)
    requires
        m.pe.image.len() <= u32::MAX,
        rva < m.pe.image.len(),
        func_sig_of(m, name, rva) matches Some(s) ==> s.capture is None ==> in_code(m.pe, rva, s.bytes.len()),
        func_sig_of(m, name, rva) matches Some(s) ==> s.capture is Some ==> forall|i: int, j: int|
            0 <= i < m.code.funcs.len() && 0 <= j < m.code.funcs[i].1.calls.len() && call_pattern(
                m,
                m.code.funcs[i].1.calls[j],
                rva,
            ) == Some(Some(s.bytes)) ==> call_reaches(m, #[trigger] m.code.funcs[i].1.calls[j], rva),
    ensures
        func_sig_of(m, name, rva) matches Some(s) ==> s.kind == Kind::Func && s.name == name && s.module == m.pe.name
            && s.bytes.len() <= MAX_SIG && sigs::applied(m.pe, s).matches == 1 && sigs::applied(m.pe, s).value == Some(
            rva as i64,
        ),
{
    if let Some(s) = func_sig_of(m, name, rva) {
        let insns = code_from(m.pe, rva, window(m, rva));
        grown_extends(m.pe, insns, None, 6, 0, Seq::empty(), None);
        if grown(m.pe, insns, None, 6) is Some {
            pattern_is_unique(m.pe, rva, window(m, rva), None, 6);
            applied_at(m.pe, s, rva);
        } else {
            let (i, j) = callers_pattern_site(m, rva, 0);
            let c = m.code.funcs[i].1.calls[j];
            assert(call_reaches(m, c, rva));
            call_pattern_captures(m, c, rva);
            call_pattern_found(m, c, rva);
            applied_at(m.pe, s, c.site);
        }
    }
}

/// A signature made from a reference to a global is found once, and resolves to
/// the address that the reference encodes: behind the instruction, plus the
/// displacement in it.
pub proof fn global_is_found_again(m: ModuleV, name: Seq<char>, site: u32)
    requires
        m.pe.image.len() <= u32::MAX,
        site < m.pe.image.len(),
        global_sig_of(m, name, site) matches Some(s) ==> in_code(m.pe, site, s.bytes.len()),
    ensures
        global_sig_of(m, name, site) matches Some(s) ==> sigs::applied(m.pe, s).matches == 1 && ({
            let first = code_from(m.pe, site, MAX_SIG as int)[0];
            let pos = site_offsets(m.pe, site, first).disp_off;
            m.pe.i32(site + pos) matches Some(d) ==> sigs::applied(m.pe, s).value == Some(
                (site + first.head.len + d) as i64,
            )
        }),
{
    if let Some(s) = global_sig_of(m, name, site) {
        let insns = code_from(m.pe, site, MAX_SIG as int);
        let first = insns[0];
        decoded_follow(m.pe.bytes(site, MAX_SIG as int), m.pe.rva_to_va(site), 0, 0);
        masked_holds(m.pe, first, false, site);
        let sp = masked_bytes(m.pe, first, false);
        pattern_is_unique(m.pe, site, MAX_SIG as int, Some((0, sp)), 5);
        applied_at(m.pe, s, site);
    }
}

/// A signature made from an access to a field is found once, and resolves to
/// the displacement in the access plus the distance to the field.
pub proof fn field_is_found_again(m: ModuleV, name: Seq<char>, site: u32, delta: i64)
    requires
        m.pe.image.len() <= u32::MAX,
        site < m.pe.image.len(),
        field_sig_of(m, name, site, delta) matches Some(s) ==> in_code(m.pe, site, s.bytes.len()),
    ensures
        field_sig_of(m, name, site, delta) matches Some(s) ==> sigs::applied(m.pe, s).matches == 1 && ({
            let first = code_from(m.pe, site, MAX_SIG as int)[0];
            let co = site_offsets(m.pe, site, first);
            &&& co.disp_size == 4 ==> (m.pe.i32(site + co.disp_off) matches Some(d) ==> sigs::applied(m.pe, s).value == Some(
                (d as i64).wrapping_add(delta),
            ))
            &&& co.disp_size == 1 ==> (pe::byte(m.pe.image, site + co.disp_off) matches Some(b) ==> sigs::applied(
                m.pe,
                s,
            ).value == Some(((b as i8) as i64).wrapping_add(delta)))
            &&& co.disp_size == 4 || co.disp_size == 1
        }),
{
    if let Some(s) = field_sig_of(m, name, site, delta) {
        let insns = code_from(m.pe, site, MAX_SIG as int);
        let first = insns[0];
        decoded_follow(m.pe.bytes(site, MAX_SIG as int), m.pe.rva_to_va(site), 0, 0);
        masked_holds(m.pe, first, true, site);
        let (pos, cap) = disp_capture(site_offsets(m.pe, site, first)).unwrap();
        let raw = masked_bytes(m.pe, first, true);
        let sp = captured(raw, pos, cap);
        assert(holds_at(m.pe, site as int, sp)) by {
            assert forall|j: int| 0 <= j < sp.len() && (#[trigger] sp[j]) is Some implies sp[j].unwrap() == m.pe.image[site
                + j] by {
                assert(sp[j] == raw[j]);
            }
        }
        pattern_is_unique(m.pe, site, MAX_SIG as int, Some((0, sp)), 6);
        applied_at(m.pe, s, site);
    }
}

} // verus!
