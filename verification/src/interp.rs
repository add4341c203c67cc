//! The abstract interpreter: what one instruction does to the tracked
//! registers and to the facts about the function it belongs to.

use vstd::prelude::*;

use crate::analysis;
use crate::analysis::{
    Access, Allocation, CallSite, Code, CodeV, FieldAccess, FuncFacts, FuncFactsV, GlobalStore, RipRef, Target, VType, Val, VtStore,
    MAX_ALLOC, MAX_OBJ,
};
use crate::insn;
use crate::insn::{Insn, UsedMem, UsedReg};
use crate::pe::{Pe, PeV};
use crate::table;
use crate::table::Table;

verus! {

/// The interpreter between two instructions of a function.
pub struct State {
    /// What each general purpose register holds.
    pub regs: Vec<Val>,
    /// Registers on the paths that branch forward, by target address.
    pub pending: Table<u64, Vec<Val>>,
    pub unreachable: bool,
    pub rcx_written: bool,
    /// The first instructions of the function.
    pub small: Vec<Insn>,
    pub facts: FuncFacts,
}

/// Model of the interpreter.
pub ghost struct StateV {
    pub regs: Seq<Val>,
    pub pending: Seq<(u64, Seq<Val>)>,
    pub unreachable: bool,
    pub rcx_written: bool,
    pub small: Seq<Insn>,
    pub facts: FuncFactsV,
}

impl DeepView for State {
    type V = StateV;

    open spec fn deep_view(&self) -> StateV {
        StateV {
            regs: self.regs@,
            pending: self.pending.deep_view(),
            unreachable: self.unreachable,
            rcx_written: self.rcx_written,
            small: self.small@,
            facts: self.facts.deep_view(),
        }
    }
}

impl StateV {
    /// Sixteen registers, on every path.
    pub open spec fn wf(self) -> bool {
        self.regs.len() == 16 && forall|i: int| 0 <= i < self.pending.len() ==> (#[trigger] self.pending[i]).1.len() == 16
    }

    /// The registers on entry: `this` in rcx, an argument in rdx.
    pub open spec fn entry(start: u32, end: u32) -> StateV {
        StateV {
            regs: Seq::new(
                16,
                |i: int|
                    if i == 1 {
                        Val::This(0)
                    } else if i == 2 {
                        Val::Arg1
                    } else {
                        Val::Unk
                    },
            ),
            pending: Seq::empty(),
            unreachable: false,
            rcx_written: false,
            small: Seq::empty(),
            facts: FuncFactsV::blank(start, end),
        }
    }
}

/// The addresses of the function that is being interpreted.
#[derive(Clone, Copy)]
pub struct Span {
    pub base: u64,
    pub start_va: u64,
    pub end_va: u64,
}

impl Span {
    pub open spec fn holds(self, va: u64) -> bool {
        self.start_va <= va && va < self.end_va
    }

    /// RVA of an instruction.
    pub open spec fn site(self, ins: Insn) -> u32 {
        ins.ip.wrapping_sub(self.base) as u32
    }

    fn contains(&self, va: u64) -> (r: bool)
        ensures
            r == self.holds(va),
    {
        va >= self.start_va && va < self.end_va
    }

    fn site_of(&self, ins: &Insn) -> (r: u32)
        ensures
            r == self.site(*ins),
    {
        ins.ip.wrapping_sub(self.base) as u32
    }
}

// ---------------------------------------------------------------------------
// Arriving at an instruction.

/// The instruction is counted, and kept where it is one of the first eight.
pub open spec fn counted(st: StateV, ins: Insn) -> StateV {
    StateV {
        small: if st.small.len() < 8 {
            st.small.push(ins)
        } else {
            st.small
        },
        facts: FuncFactsV { insns: st.facts.insns.wrapping_add(1), ..st.facts },
        ..st
    }
}

/// The paths that branched here join the one that falls through, if that one
/// is reachable. Behind an exit that nothing branches to, only the registers
/// that calls preserve are trusted.
pub open spec fn arrived(st: StateV, ip: u64) -> StateV {
    StateV {
        regs: match table::get(st.pending, ip) {
            Some(p) => if st.unreachable {
                p
            } else {
                analysis::merged_regs(st.regs, p)
            },
            None => if st.unreachable {
                analysis::clobbered(st.regs)
            } else {
                st.regs
            },
        },
        pending: table::without(st.pending, ip),
        unreachable: false,
        ..st
    }
}

proof fn without_wf(s: Seq<(u64, Seq<Val>)>, k: u64)
    requires
        forall|i: int| 0 <= i < s.len() ==> (#[trigger] s[i]).1.len() == 16,
    ensures
        forall|i: int| 0 <= i < table::without(s, k).len() ==> (#[trigger] table::without(s, k)[i]).1.len() == 16,
        table::get(s, k) matches Some(p) ==> p.len() == 16,
{
    let r = table::rank(s, k);
    table::rank_bounds(s, k, 0);
    let t = table::without(s, k);
    assert forall|i: int| 0 <= i < t.len() implies (#[trigger] t[i]).1.len() == 16 by {
        if table::holds(s, k) {
            let j = if i >= r {
                i + 1
            } else {
                i
            };
            assert(t[i] == s[j]);
        }
    }
}

proof fn put_wf(s: Seq<(u64, Seq<Val>)>, k: u64, p: Seq<Val>)
    requires
        forall|i: int| 0 <= i < s.len() ==> (#[trigger] s[i]).1.len() == 16,
        p.len() == 16,
    ensures
        forall|i: int| 0 <= i < table::put(s, k, p).len() ==> (#[trigger] table::put(s, k, p)[i]).1.len() == 16,
{
    let r = table::rank(s, k);
    table::rank_bounds(s, k, 0);
    let t = table::put(s, k, p);
    assert forall|i: int| 0 <= i < t.len() implies (#[trigger] t[i]).1.len() == 16 by {
        if i != r {
            let j = if !table::holds(s, k) && i > r {
                i - 1
            } else {
                i
            };
            assert(t[i] == s[j]);
        }
    }
}

// ---------------------------------------------------------------------------
// Use of the incoming `this`.

pub open spec fn is_read(access: u32) -> bool {
    access == insn::ACCESS_READ || access == insn::ACCESS_COND_READ || access == insn::ACCESS_READ_WRITE || access
        == insn::ACCESS_READ_COND_WRITE
}

pub open spec fn is_plain_write(access: u32) -> bool {
    access == insn::ACCESS_WRITE || access == insn::ACCESS_COND_WRITE
}

pub open spec fn is_write(access: u32) -> bool {
    is_plain_write(access) || access == insn::ACCESS_READ_WRITE || access == insn::ACCESS_READ_COND_WRITE
}

fn reads(access: u32) -> (r: bool)
    ensures
        r == is_read(access),
{
    access == insn::ACCESS_READ || access == insn::ACCESS_COND_READ || access == insn::ACCESS_READ_WRITE || access
        == insn::ACCESS_READ_COND_WRITE
}

fn plainly_writes(access: u32) -> (r: bool)
    ensures
        r == is_plain_write(access),
{
    access == insn::ACCESS_WRITE || access == insn::ACCESS_COND_WRITE
}

fn writes(access: u32) -> (r: bool)
    ensures
        r == is_write(access),
{
    plainly_writes(access) || access == insn::ACCESS_READ_WRITE || access == insn::ACCESS_READ_COND_WRITE
}

/// An instruction that uses these registers reads rcx.
pub open spec fn reads_rcx(used: Seq<UsedReg>) -> bool {
    exists|i: int| 0 <= i < used.len() && insn::gpr_number((#[trigger] used[i]).reg) == Some(1int) && is_read(used[i].access)
}

/// An instruction that uses these registers overwrites rcx.
pub open spec fn writes_rcx(used: Seq<UsedReg>) -> bool {
    exists|i: int|
        0 <= i < used.len() && insn::gpr_number((#[trigger] used[i]).reg) == Some(1int) && is_plain_write(used[i].access)
}

/// Control leaves the function with an instruction, or a call is made.
pub open spec fn passes_on(ins: Insn, span: Span) -> bool {
    let fc = ins.head.flow;
    (fc == insn::FLOW_CALL || fc == insn::FLOW_INDIRECT_CALL || fc == insn::FLOW_UNCONDITIONAL_BRANCH || fc
        == insn::FLOW_INDIRECT_BRANCH) && !(fc == insn::FLOW_UNCONDITIONAL_BRANCH && span.holds(ins.head.target))
}

/// Until rcx is overwritten, a read of it and every way of passing control on
/// count as a use of `this`.
pub open spec fn used_this(st: StateV, ins: Insn, used: Seq<UsedReg>, span: Span) -> StateV {
    if st.rcx_written {
        st
    } else {
        let written = writes_rcx(used);
        StateV {
            rcx_written: written,
            facts: FuncFactsV {
                uses_this: st.facts.uses_this || reads_rcx(used) || (!written && passes_on(ins, span)),
                ..st.facts
            },
            ..st
        }
    }
}

// ---------------------------------------------------------------------------
// Global references and field accesses.

/// An instruction that uses this memory writes to a location relative to rip.
pub open spec fn writes_rip(mems: Seq<UsedMem>) -> bool {
    exists|i: int| 0 <= i < mems.len() && (#[trigger] mems[i]).base == insn::REG_RIP && is_write(mems[i].access)
}

/// The global reference an instruction makes.
pub open spec fn rip_ref(pe: PeV, ins: Insn, mems: Seq<UsedMem>, site: u32) -> Option<RipRef> {
    if ins.mem.ip_rel {
        match pe.va_to_rva(ins.mem.ip_rel_addr) {
            Some(t) => Some(
                RipRef {
                    site,
                    target: t,
                    kind: if ins.head.mnemonic == insn::MNEM_LEA {
                        Access::Addr
                    } else if writes_rip(mems) {
                        Access::Write
                    } else {
                        Access::Read
                    },
                    size: ins.mem.size.bytes as u8,
                    ty: VType::of(ins.mem.size),
                },
            ),
            None => None,
        }
    } else {
        None
    }
}

pub open spec fn referenced(f: FuncFactsV, pe: PeV, ins: Insn, mems: Seq<UsedMem>, site: u32) -> FuncFactsV {
    match rip_ref(pe, ins, mems, site) {
        Some(r) => FuncFactsV { rip_refs: f.rip_refs.push(r), ..f },
        None => f,
    }
}

/// Offset of an access `disp` behind a pointer `o` into an object.
pub open spec fn offset(o: i32, disp: u64) -> i64 {
    (o as i64).wrapping_add(disp as i64)
}

pub open spec fn in_object(off: i64) -> bool {
    0 <= off && off < MAX_OBJ
}

pub open spec fn near_object(off: i64) -> bool {
    -MAX_OBJ <= off && off < MAX_OBJ
}

pub open spec fn access_at(m: UsedMem, site: u32, off: i64, kind: Access) -> FieldAccess {
    FieldAccess {
        site,
        off: off as i32,
        size: m.size.bytes as u8,
        ty: VType::of(m.size),
        kind,
        indexed: m.index != insn::REG_NONE,
    }
}

/// The facts after one memory location that an instruction uses.
pub open spec fn touched(f: FuncFactsV, regs: Seq<Val>, m: UsedMem, site: u32) -> FuncFactsV {
    match insn::gpr_number(m.base) {
        None => f,
        Some(b) => match regs[b] {
            Val::This(o) => {
                let off = offset(o, m.disp);
                if in_object(off) {
                    let kind = if is_write(m.access) {
                        Access::Write
                    } else {
                        Access::Read
                    };
                    FuncFactsV { fields: f.fields.push(access_at(m, site, off, kind)), ..f }
                } else {
                    f
                }
            },
            Val::Alloc(id, o) => {
                let off = offset(o, m.disp);
                if in_object(off) {
                    let kind = if m.access == insn::ACCESS_READ || m.access == insn::ACCESS_COND_READ {
                        Access::Read
                    } else {
                        Access::Write
                    };
                    FuncFactsV { alloc_fields: f.alloc_fields.push((id, access_at(m, site, off, kind))), ..f }
                } else {
                    f
                }
            },
            Val::FieldPtr(o) => FuncFactsV { ptr_fields: f.ptr_fields.push(o), ..f },
            _ => f,
        },
    }
}

/// The facts after the first `n` memory locations that an instruction uses.
pub open spec fn touched_all(f: FuncFactsV, regs: Seq<Val>, mems: Seq<UsedMem>, site: u32, n: int) -> FuncFactsV
    decreases n,
{
    if n <= 0 {
        f
    } else {
        touched(touched_all(f, regs, mems, site, n - 1), regs, mems[n - 1], site)
    }
}

// ---------------------------------------------------------------------------
// The value an instruction computes.

/// The register that an instruction names first.
pub open spec fn first_reg(ins: Insn) -> Option<u32> {
    if ins.head.op_count > 0 && ins.op0.kind == insn::KIND_REGISTER {
        Some(ins.op0.reg)
    } else {
        None
    }
}

/// The general purpose register that an instruction names first.
pub open spec fn dest(ins: Insn) -> Option<int> {
    match first_reg(ins) {
        Some(r) => insn::gpr_number(r),
        None => None,
    }
}

pub open spec fn dest_is64(ins: Insn) -> bool {
    match first_reg(ins) {
        Some(r) => insn::gpr64(r),
        None => false,
    }
}

pub open spec fn dest_is_wide(ins: Insn) -> bool {
    match first_reg(ins) {
        Some(r) => insn::gpr64(r) || insn::gpr32(r),
        None => false,
    }
}

/// What the base register of the memory operand holds.
pub open spec fn base_value(regs: Seq<Val>, ins: Insn) -> Option<Val> {
    match insn::gpr_number(ins.mem.base) {
        Some(b) => Some(regs[b]),
        None => None,
    }
}

/// The immediates that a `mov` loads.
pub open spec fn is_mov_immediate(kind: u32) -> bool {
    insn::is_immediate(kind) && kind != insn::KIND_IMMEDIATE8_2ND && kind != insn::KIND_IMMEDIATE8TO16
}

pub open spec fn low32(v: u64) -> u64 {
    v & 0xffff_ffff
}

/// What `mov` loads into a register.
pub open spec fn moved(pe: PeV, regs: Seq<Val>, ins: Insn) -> Val {
    let wide = dest_is64(ins);
    let kind = ins.op1.kind;
    if kind == insn::KIND_REGISTER {
        match insn::gpr_number(ins.op1.reg) {
            Some(s) => if wide && insn::gpr64(ins.op1.reg) {
                regs[s]
            } else {
                match regs[s] {
                    Val::Const(c) => Val::Const(low32(c)),
                    Val::Arg1 => Val::Arg1,
                    _ => Val::Unk,
                }
            },
            None => Val::Unk,
        }
    } else if is_mov_immediate(kind) {
        let v = ins.immediate(1);
        Val::Const(
            if wide {
                v
            } else {
                low32(v)
            },
        )
    } else if kind == insn::KIND_MEMORY && ins.mem.ip_rel && wide {
        match pe.va_to_rva(ins.mem.ip_rel_addr) {
            Some(g) => Val::Glob(g),
            None => Val::Unk,
        }
    } else if kind == insn::KIND_MEMORY && wide && ins.mem.index == insn::REG_NONE {
        match base_value(regs, ins) {
            Some(Val::This(o)) => {
                let off = offset(o, ins.mem.disp);
                if in_object(off) {
                    Val::FieldPtr(off as i32)
                } else {
                    Val::Unk
                }
            },
            _ => Val::Unk,
        }
    } else {
        Val::Unk
    }
}

/// What `lea` loads into a register.
pub open spec fn led(pe: PeV, regs: Seq<Val>, ins: Insn) -> Val {
    if ins.mem.ip_rel {
        match pe.va_to_rva(ins.mem.ip_rel_addr) {
            Some(a) => Val::Addr(a),
            None => Val::Unk,
        }
    } else if ins.mem.index == insn::REG_NONE {
        match base_value(regs, ins) {
            Some(Val::This(o)) => {
                let off = offset(o, ins.mem.disp);
                if near_object(off) {
                    Val::This(off as i32)
                } else {
                    Val::Unk
                }
            },
            Some(Val::Alloc(id, o)) => Val::Alloc(id, offset(o, ins.mem.disp) as i32),
            _ => Val::Unk,
        }
    } else {
        Val::Unk
    }
}

/// The address of a field that `lea` takes.
pub open spec fn led_field(regs: Seq<Val>, ins: Insn, site: u32) -> Option<FieldAccess> {
    if !ins.mem.ip_rel && ins.mem.index == insn::REG_NONE {
        match base_value(regs, ins) {
            Some(Val::This(o)) => {
                let off = offset(o, ins.mem.disp);
                if ins.mem.disp != 0 && in_object(off) {
                    Some(
                        FieldAccess {
                            site,
                            off: off as i32,
                            size: 0,
                            ty: VType::Unknown,
                            kind: Access::Addr,
                            indexed: false,
                        },
                    )
                } else {
                    None
                }
            },
            _ => None,
        }
    } else {
        None
    }
}

/// The signed amount that `add` or `sub` adds.
pub open spec fn added(ins: Insn, imm: u64) -> i64 {
    if ins.head.mnemonic == insn::MNEM_SUB {
        0i64.wrapping_sub(imm as i64)
    } else {
        imm as i64
    }
}

/// A value after `n` is added to it.
pub open spec fn shifted(v: Val, n: i64) -> Val {
    match v {
        Val::This(o) => {
            let off = (o as i64).wrapping_add(n);
            if near_object(off) {
                Val::This(off as i32)
            } else {
                Val::Unk
            }
        },
        Val::Alloc(id, o) => Val::Alloc(id, (o as i64).wrapping_add(n) as i32),
        _ => Val::Unk,
    }
}

/// The tracked value that an instruction leaves in the register it names first.
pub open spec fn new_value(pe: PeV, regs: Seq<Val>, ins: Insn) -> Option<Val> {
    let mnem = ins.head.mnemonic;
    match dest(ins) {
        None => None,
        Some(d) => if mnem == insn::MNEM_MOV && dest_is_wide(ins) {
            Some(moved(pe, regs, ins))
        } else if mnem == insn::MNEM_LEA && dest_is64(ins) {
            Some(led(pe, regs, ins))
        } else if mnem == insn::MNEM_XOR && ins.op1.kind == insn::KIND_REGISTER && ins.op0.reg == ins.op1.reg {
            Some(Val::Const(0))
        } else if (mnem == insn::MNEM_ADD || mnem == insn::MNEM_SUB) && dest_is64(ins) {
            match ins.imm() {
                Some(imm) => Some(shifted(regs[d], added(ins, imm))),
                None => None,
            }
        } else {
            None
        },
    }
}

/// An instruction tests bit 0 of the second argument.
pub open spec fn tests_bit(regs: Seq<Val>, ins: Insn) -> bool {
    let mnem = ins.head.mnemonic;
    (mnem == insn::MNEM_TEST || mnem == insn::MNEM_AND) && ins.head.op_count == 2 && ins.imm() == Some(1u64) && match dest(
        ins,
    ) {
        Some(d) => regs[d] == Val::Arg1,
        None => false,
    }
}

/// The facts after the operation of an instruction is looked at.
pub open spec fn operated(f: FuncFactsV, regs: Seq<Val>, ins: Insn, site: u32) -> FuncFactsV {
    let fields = if ins.head.mnemonic == insn::MNEM_LEA && dest(ins) is Some && dest_is64(ins) {
        match led_field(regs, ins, site) {
            Some(a) => f.fields.push(a),
            None => f.fields,
        }
    } else {
        f.fields
    };
    FuncFactsV { fields, tests_arg_bit: f.tests_arg_bit || tests_bit(regs, ins), ..f }
}

// ---------------------------------------------------------------------------
// Stores of tracked values: vtable writes and global writes.

/// The value that a 64-bit `mov` stores to memory.
pub open spec fn stored(regs: Seq<Val>, ins: Insn) -> Option<Val> {
    if ins.head.mnemonic == insn::MNEM_MOV && ins.op0.kind == insn::KIND_MEMORY && ins.op1.kind == insn::KIND_REGISTER
        && insn::gpr64(ins.op1.reg) {
        match insn::gpr_number(ins.op1.reg) {
            Some(s) => Some(regs[s]),
            None => None,
        }
    } else {
        None
    }
}

/// The object that a store goes to.
pub open spec fn store_dest(regs: Seq<Val>, ins: Insn) -> Val {
    match base_value(regs, ins) {
        Some(Val::This(o)) => Val::This(offset(o, ins.mem.disp) as i32),
        Some(Val::Alloc(id, o)) => Val::Alloc(id, offset(o, ins.mem.disp) as i32),
        _ => Val::Unk,
    }
}

pub open spec fn stores(f: FuncFactsV, c: CodeV, regs: Seq<Val>, ins: Insn, site: u32) -> FuncFactsV {
    match stored(regs, ins) {
        None => f,
        Some(src) => if ins.mem.ip_rel {
            match c.pe.va_to_rva(ins.mem.ip_rel_addr) {
                Some(g) => if analysis::is_object(src) || src is Addr {
                    FuncFactsV { global_stores: f.global_stores.push(GlobalStore { site, global: g, val: src }), ..f }
                } else {
                    f
                },
                None => f,
            }
        } else {
            match src {
                Val::Addr(v) => if table::holds(c.vtables, v) && ins.mem.index == insn::REG_NONE {
                    FuncFactsV { vt_stores: f.vt_stores.push(VtStore { site, vt: v, dst: store_dest(regs, ins) }), ..f }
                } else {
                    f
                },
                _ => f,
            }
        },
    }
}

// ---------------------------------------------------------------------------
// Flow of control.

/// The slot of the import table at an address, if it holds an import.
pub open spec fn import_slot(pe: PeV, va: u64) -> Option<u32> {
    match pe.va_to_rva(va) {
        Some(s) => if pe.import_at_iat(s) is Some {
            Some(s)
        } else {
            None
        },
        None => None,
    }
}

/// The call an instruction makes: its target, and whether it is a tail call.
pub open spec fn call_of(c: CodeV, regs: Seq<Val>, ins: Insn, span: Span) -> Option<(Target, bool)> {
    let flow = ins.head.flow;
    let t = ins.head.target;
    if flow == insn::FLOW_CALL {
        match c.pe.va_to_rva(t) {
            Some(r) => Some((c.resolve_direct(r), false)),
            None => Some((Target::Indirect, false)),
        }
    } else if flow == insn::FLOW_INDIRECT_CALL {
        if ins.mem.ip_rel {
            match import_slot(c.pe, ins.mem.ip_rel_addr) {
                Some(s) => Some((Target::Import(s), false)),
                None => Some((Target::Indirect, false)),
            }
        } else if ins.op0.kind == insn::KIND_MEMORY && ins.mem.index == insn::REG_NONE && base_value(regs, ins) == Some(
            Val::FieldPtr(0),
        ) {
            Some((Target::VirtualThis((ins.mem.disp / 8) as u32), false))
        } else {
            Some((Target::Indirect, false))
        }
    } else if flow == insn::FLOW_UNCONDITIONAL_BRANCH && !span.holds(t) {
        match c.pe.va_to_rva(t) {
            Some(r) => Some((c.resolve_direct(r), true)),
            None => None,
        }
    } else if flow == insn::FLOW_INDIRECT_BRANCH && ins.mem.ip_rel {
        match import_slot(c.pe, ins.mem.ip_rel_addr) {
            Some(s) => Some((Target::Import(s), true)),
            None => None,
        }
    } else {
        None
    }
}

/// An instruction branches forward inside the function.
pub open spec fn branches_ahead(ins: Insn, span: Span) -> bool {
    let flow = ins.head.flow;
    let t = ins.head.target;
    t > ins.ip && ((flow == insn::FLOW_UNCONDITIONAL_BRANCH && span.holds(t)) || (flow == insn::FLOW_CONDITIONAL_BRANCH
        && t < span.end_va))
}

/// The pending paths after an instruction.
pub open spec fn branched(pending: Seq<(u64, Seq<Val>)>, regs: Seq<Val>, ins: Insn, span: Span) -> Seq<(u64, Seq<Val>)> {
    if branches_ahead(ins, span) {
        let t = ins.head.target;
        table::put(
            pending,
            t,
            match table::get(pending, t) {
                Some(e) => analysis::merged_regs(e, regs),
                None => regs,
            },
        )
    } else {
        pending
    }
}

/// The facts after a call.
pub open spec fn called(f: FuncFactsV, regs: Seq<Val>, call: Option<(Target, bool)>, site: u32) -> FuncFactsV {
    match call {
        None => f,
        Some((target, tail)) => FuncFactsV {
            calls: f.calls.push(CallSite { site, target, rcx: regs[1], rdx: regs[2], tail }),
            ptr_fields: match regs[1] {
                Val::FieldPtr(o) => f.ptr_fields.push(o),
                _ => f.ptr_fields,
            },
            ..f
        },
    }
}

/// An instruction that uses these registers writes general purpose register `i`.
pub open spec fn writes_gpr(used: Seq<UsedReg>, i: int) -> bool {
    exists|k: int| 0 <= k < used.len() && insn::gpr_number((#[trigger] used[k]).reg) == Some(i) && is_write(used[k].access)
}

/// The registers after an instruction: what it writes is forgotten, but for
/// the value it is known to compute.
pub open spec fn written(regs: Seq<Val>, used: Seq<UsedReg>, dst: Option<int>, value: Option<Val>) -> Seq<Val> {
    Seq::new(
        regs.len(),
        |i: int|
            if dst == Some(i) && value is Some {
                value.unwrap()
            } else if writes_gpr(used, i) {
                Val::Unk
            } else {
                regs[i]
            },
    )
}

/// The allocation that a call makes.
pub open spec fn allocation(call: (Target, bool), rcx: Val, site: u32) -> Option<Allocation> {
    match (call.0, rcx) {
        (Target::Direct(t), Val::Const(n)) => if !call.1 && 1 <= n && n <= MAX_ALLOC {
            Some(Allocation { site, size: n, allocator: t })
        } else {
            None
        },
        _ => None,
    }
}

/// What a call leaves in rax, `n` allocations having been made before it: a
/// fresh allocation, or the allocation it was called on, since constructors
/// return `this`.
pub open spec fn returned(call: (Target, bool), rcx: Val, site: u32, n: nat) -> Option<Val> {
    if allocation(call, rcx, site) is Some {
        Some(Val::Alloc(n as u32, 0))
    } else {
        match (call.0, rcx) {
            (Target::Direct(_), Val::Alloc(id, o)) => if o == 0 {
                Some(Val::Alloc(id, 0))
            } else {
                None
            },
            _ => None,
        }
    }
}

pub open spec fn after_call(st: StateV, call: Option<(Target, bool)>, site: u32) -> StateV {
    match call {
        None => st,
        Some(c) => {
            let rcx = st.regs[1];
            let regs = analysis::clobbered(st.regs);
            StateV {
                regs: match returned(c, rcx, site, st.facts.allocs.len()) {
                    Some(v) => regs.update(0, v),
                    None => regs,
                },
                facts: match allocation(c, rcx, site) {
                    Some(a) => FuncFactsV { allocs: st.facts.allocs.push(a), ..st.facts },
                    None => st.facts,
                },
                ..st
            }
        },
    }
}

/// Control does not continue behind an instruction.
pub open spec fn is_exit(flow: u32) -> bool {
    flow == insn::FLOW_RETURN || flow == insn::FLOW_UNCONDITIONAL_BRANCH || flow == insn::FLOW_INDIRECT_BRANCH || flow
        == insn::FLOW_INTERRUPT || flow == insn::FLOW_EXCEPTION
}

// ---------------------------------------------------------------------------
// One instruction.

/// The facts that an instruction adds before it takes effect.
pub open spec fn observed(f: FuncFactsV, c: CodeV, regs: Seq<Val>, ins: Insn, mems: Seq<UsedMem>, span: Span) -> FuncFactsV {
    let site = span.site(ins);
    let f = referenced(f, c.pe, ins, mems, site);
    let f = touched_all(f, regs, mems, site, mems.len() as int);
    let f = operated(f, regs, ins, site);
    let f = stores(f, c, regs, ins, site);
    called(f, regs, call_of(c, regs, ins, span), site)
}

/// The effect of an instruction on the registers and the paths.
pub open spec fn executed(st: StateV, c: CodeV, ins: Insn, used: Seq<UsedReg>, span: Span) -> StateV {
    let call = call_of(c, st.regs, ins, span);
    let st = StateV {
        regs: written(st.regs, used, dest(ins), new_value(c.pe, st.regs, ins)),
        pending: branched(st.pending, st.regs, ins, span),
        ..st
    };
    let st = after_call(st, call, span.site(ins));
    StateV { unreachable: st.unreachable || is_exit(ins.head.flow), ..st }
}

/// The interpreter after an instruction that uses these registers and this
/// memory.
pub open spec fn stepped(st: StateV, c: CodeV, ins: Insn, used: Seq<UsedReg>, mems: Seq<UsedMem>, span: Span) -> StateV {
    let st = used_this(arrived(counted(st, ins), ins.ip), ins, used, span);
    let st = StateV { facts: observed(st.facts, c, st.regs, ins, mems, span), ..st };
    executed(st, c, ins, used, span)
}

impl State {
    pub fn entry(start: u32, end: u32) -> (r: State)
        ensures
            r.deep_view() == StateV::entry(start, end),
            r.deep_view().wf(),
    {
        let mut regs: Vec<Val> = Vec::new();
        let mut i: usize = 0;
        while i < 16
            invariant
                i <= 16,
                regs@ == StateV::entry(start, end).regs.take(i as int),
            decreases 16 - i,
        {
            if i == 1 {
                regs.push(Val::This(0));
            } else if i == 2 {
                regs.push(Val::Arg1);
            } else {
                regs.push(Val::Unk);
            }
            i += 1;
            assert(regs@ =~= StateV::entry(start, end).regs.take(i as int));
        }
        assert(regs@ =~= StateV::entry(start, end).regs);
        State {
            regs,
            pending: Table::new(),
            unreachable: false,
            rcx_written: false,
            small: Vec::new(),
            facts: FuncFacts::blank(start, end),
        }
    }

    fn count(&mut self, ins: &Insn)
        ensures
            final(self).deep_view() == counted(old(self).deep_view(), *ins),
    {
        if self.small.len() < 8 {
            self.small.push(*ins);
        }
        self.facts.insns = self.facts.insns.wrapping_add(1);
    }

    fn arrive(&mut self, ip: u64)
        requires
            old(self).deep_view().wf(),
        ensures
            final(self).deep_view() == arrived(old(self).deep_view(), ip),
            final(self).deep_view().wf(),
    {
        proof {
            without_wf(self.pending.deep_view(), ip);
        }
        match self.pending.take(&ip) {
            Some(p) => {
                assert(p.deep_view() =~= p@);
                if self.unreachable {
                    self.regs = p;
                } else {
                    self.regs = merge_two(&self.regs, &p);
                }
            },
            None => {
                if self.unreachable {
                    analysis::clobber(&mut self.regs);
                }
            },
        }
        self.unreachable = false;
    }

    fn use_this(&mut self, ins: &Insn, used: &Vec<UsedReg>, span: &Span)
        ensures
            final(self).deep_view() == used_this(old(self).deep_view(), *ins, used@, *span),
    {
        if self.rcx_written {
            return;
        }
        let mut read = false;
        let mut write = false;
        let mut i: usize = 0;
        while i < used.len()
            invariant
                i <= used@.len(),
                read == (exists|k: int|
                    0 <= k < i && insn::gpr_number((#[trigger] used@[k]).reg) == Some(1int) && is_read(used@[k].access)),
                write == (exists|k: int|
                    0 <= k < i && insn::gpr_number((#[trigger] used@[k]).reg) == Some(1int) && is_plain_write(
                        used@[k].access,
                    )),
            decreases used@.len() - i,
        {
            let u = used[i];
            if insn::gpr(u.reg) == Some(1usize) {
                if reads(u.access) {
                    read = true;
                }
                if plainly_writes(u.access) {
                    write = true;
                }
            }
            i += 1;
        }
        let fc = ins.head.flow;
        let leaves = (fc == insn::FLOW_CALL || fc == insn::FLOW_INDIRECT_CALL || fc == insn::FLOW_UNCONDITIONAL_BRANCH || fc
            == insn::FLOW_INDIRECT_BRANCH) && !(fc == insn::FLOW_UNCONDITIONAL_BRANCH && span.contains(ins.head.target));
        self.rcx_written = write;
        self.facts.uses_this = self.facts.uses_this || read || (!write && leaves);
    }

    fn refer(&mut self, pe: &Pe, ins: &Insn, mems: &Vec<UsedMem>, site: u32)
        ensures
            final(self).deep_view() == (StateV {
                facts: referenced(old(self).deep_view().facts, pe.deep_view(), *ins, mems@, site),
                ..old(self).deep_view()
            }),
    {
        if !ins.mem.ip_rel {
            return;
        }
        let t = match pe.va_to_rva(ins.mem.ip_rel_addr) {
            Some(t) => t,
            None => {
                return;
            },
        };
        let mut write = false;
        let mut i: usize = 0;
        while i < mems.len()
            invariant
                i <= mems@.len(),
                write == (exists|k: int|
                    0 <= k < i && (#[trigger] mems@[k]).base == insn::REG_RIP && is_write(mems@[k].access)),
            decreases mems@.len() - i,
        {
            if mems[i].base == insn::REG_RIP && writes(mems[i].access) {
                write = true;
            }
            i += 1;
        }
        let kind = if ins.head.mnemonic == insn::MNEM_LEA {
            Access::Addr
        } else if write {
            Access::Write
        } else {
            Access::Read
        };
        let size = ins.mem.size.bytes as u8;
        self.facts.rip_refs.push(RipRef { site, target: t, kind, size, ty: VType::from_mem(ins.mem.size) });
    }

    fn touch(&mut self, m: &UsedMem, site: u32)
        requires
            old(self).deep_view().wf(),
        ensures
            final(self).deep_view() == (StateV {
                facts: touched(old(self).deep_view().facts, old(self).deep_view().regs, *m, site),
                ..old(self).deep_view()
            }),
    {
        let b = match insn::gpr(m.base) {
            Some(b) => b,
            None => {
                return;
            },
        };
        match self.regs[b] {
            Val::This(o) => {
                let off = field_offset(o, m.disp);
                if 0 <= off && off < MAX_OBJ {
                    let kind = if writes(m.access) { Access::Write } else { Access::Read };
                    self.facts.fields.push(field_access(m, site, off, kind));
                }
            },
            Val::Alloc(id, o) => {
                let off = field_offset(o, m.disp);
                if 0 <= off && off < MAX_OBJ {
                    let kind = if m.access == insn::ACCESS_READ || m.access == insn::ACCESS_COND_READ {
                        Access::Read
                    } else {
                        Access::Write
                    };
                    self.facts.alloc_fields.push((id, field_access(m, site, off, kind)));
                }
            },
            Val::FieldPtr(o) => {
                self.facts.ptr_fields.push(o);
            },
            _ => {},
        }
    }

    fn touch_all(&mut self, mems: &Vec<UsedMem>, site: u32)
        requires
            old(self).deep_view().wf(),
        ensures
            final(self).deep_view() == (StateV {
                facts: touched_all(
                    old(self).deep_view().facts,
                    old(self).deep_view().regs,
                    mems@,
                    site,
                    mems@.len() as int,
                ),
                ..old(self).deep_view()
            }),
    {
        let ghost st = self.deep_view();
        let mut i: usize = 0;
        while i < mems.len()
            invariant
                st.wf(),
                i <= mems@.len(),
                self.deep_view() == (StateV { facts: touched_all(st.facts, st.regs, mems@, site, i as int), ..st }),
            decreases mems@.len() - i,
        {
            self.touch(&mems[i], site);
            i += 1;
        }
    }

    fn base(&self, ins: &Insn) -> (r: Option<Val>)
        requires
            self.deep_view().wf(),
        ensures
            r == base_value(self.deep_view().regs, *ins),
    {
        match insn::gpr(ins.mem.base) {
            Some(b) => Some(self.regs[b]),
            None => None,
        }
    }

    fn value_moved(&self, pe: &Pe, ins: &Insn) -> (r: Val)
        requires
            self.deep_view().wf(),
        ensures
            r == moved(pe.deep_view(), self.deep_view().regs, *ins),
    {
        let wide = dest64(ins);
        let kind = ins.op1.kind;
        if kind == insn::KIND_REGISTER {
            match insn::gpr(ins.op1.reg) {
                Some(s) => if wide && insn::is_gpr64(ins.op1.reg) {
                    self.regs[s]
                } else {
                    match self.regs[s] {
                        Val::Const(c) => Val::Const(c & 0xffff_ffff),
                        Val::Arg1 => Val::Arg1,
                        _ => Val::Unk,
                    }
                },
                None => Val::Unk,
            }
        } else if insn::KIND_IMMEDIATE8 <= kind && kind <= insn::KIND_IMMEDIATE32TO64 && kind != insn::KIND_IMMEDIATE8_2ND
            && kind != insn::KIND_IMMEDIATE8TO16 {
            let v: u64 = match ins.op1.imm {
                Some(v) => v,
                None => 0,
            };
            Val::Const(
                if wide {
                    v
                } else {
                    v & 0xffff_ffff
                },
            )
        } else if kind == insn::KIND_MEMORY && ins.mem.ip_rel && wide {
            match pe.va_to_rva(ins.mem.ip_rel_addr) {
                Some(g) => Val::Glob(g),
                None => Val::Unk,
            }
        } else if kind == insn::KIND_MEMORY && wide && ins.mem.index == insn::REG_NONE {
            match self.base(ins) {
                Some(Val::This(o)) => {
                    let off = field_offset(o, ins.mem.disp);
                    if 0 <= off && off < MAX_OBJ {
                        Val::FieldPtr(off as i32)
                    } else {
                        Val::Unk
                    }
                },
                _ => Val::Unk,
            }
        } else {
            Val::Unk
        }
    }

    fn value_led(&self, pe: &Pe, ins: &Insn) -> (r: Val)
        requires
            self.deep_view().wf(),
        ensures
            r == led(pe.deep_view(), self.deep_view().regs, *ins),
    {
        if ins.mem.ip_rel {
            match pe.va_to_rva(ins.mem.ip_rel_addr) {
                Some(a) => Val::Addr(a),
                None => Val::Unk,
            }
        } else if ins.mem.index == insn::REG_NONE {
            match self.base(ins) {
                Some(Val::This(o)) => {
                    let off = field_offset(o, ins.mem.disp);
                    if -MAX_OBJ <= off && off < MAX_OBJ {
                        Val::This(off as i32)
                    } else {
                        Val::Unk
                    }
                },
                Some(Val::Alloc(id, o)) => Val::Alloc(id, field_offset(o, ins.mem.disp) as i32),
                _ => Val::Unk,
            }
        } else {
            Val::Unk
        }
    }

    fn value_of(&self, pe: &Pe, ins: &Insn) -> (r: Option<Val>)
        requires
            self.deep_view().wf(),
        ensures
            r == new_value(pe.deep_view(), self.deep_view().regs, *ins),
    {
        let mnem = ins.head.mnemonic;
        let d = match dest_of(ins) {
            Some(d) => d,
            None => {
                return None;
            },
        };
        if mnem == insn::MNEM_MOV && dest_wide(ins) {
            Some(self.value_moved(pe, ins))
        } else if mnem == insn::MNEM_LEA && dest64(ins) {
            Some(self.value_led(pe, ins))
        } else if mnem == insn::MNEM_XOR && ins.op1.kind == insn::KIND_REGISTER && ins.op0.reg == ins.op1.reg {
            Some(Val::Const(0))
        } else if (mnem == insn::MNEM_ADD || mnem == insn::MNEM_SUB) && dest64(ins) {
            match insn::imm_value(ins) {
                Some(imm) => {
                    let n: i64 = if mnem == insn::MNEM_SUB { 0i64.wrapping_sub(imm as i64) } else { imm as i64 };
                    Some(
                        match self.regs[d] {
                            Val::This(o) => {
                                let off: i64 = (o as i64).wrapping_add(n);
                                if -MAX_OBJ <= off && off < MAX_OBJ {
                                    Val::This(off as i32)
                                } else {
                                    Val::Unk
                                }
                            },
                            Val::Alloc(id, o) => Val::Alloc(id, (o as i64).wrapping_add(n) as i32),
                            _ => Val::Unk,
                        },
                    )
                },
                None => None,
            }
        } else {
            None
        }
    }

    fn operate(&mut self, ins: &Insn, site: u32)
        requires
            old(self).deep_view().wf(),
        ensures
            final(self).deep_view() == (StateV {
                facts: operated(old(self).deep_view().facts, old(self).deep_view().regs, *ins, site),
                ..old(self).deep_view()
            }),
    {
        let mnem = ins.head.mnemonic;
        let d = match dest_of(ins) {
            Some(d) => d,
            None => {
                return;
            },
        };
        if mnem == insn::MNEM_LEA && dest64(ins) && !ins.mem.ip_rel && ins.mem.index == insn::REG_NONE {
            if let Some(Val::This(o)) = self.base(ins) {
                let off = field_offset(o, ins.mem.disp);
                if ins.mem.disp != 0 && 0 <= off && off < MAX_OBJ {
                    self.facts.fields.push(
                        FieldAccess {
                            site,
                            off: off as i32,
                            size: 0,
                            ty: VType::Unknown,
                            kind: Access::Addr,
                            indexed: false,
                        },
                    );
                }
            }
        }
        if (mnem == insn::MNEM_TEST || mnem == insn::MNEM_AND) && ins.head.op_count == 2 {
            if insn::imm_value(ins) == Some(1u64) && self.regs[d] == Val::Arg1 {
                self.facts.tests_arg_bit = true;
            }
        }
    }

    fn store(&mut self, c: &Code, ins: &Insn, site: u32)
        requires
            old(self).deep_view().wf(),
        ensures
            final(self).deep_view() == (StateV {
                facts: stores(
                    old(self).deep_view().facts,
                    c.deep_view(),
                    old(self).deep_view().regs,
                    *ins,
                    site,
                ),
                ..old(self).deep_view()
            }),
    {
        if ins.head.mnemonic != insn::MNEM_MOV || ins.op0.kind != insn::KIND_MEMORY || ins.op1.kind != insn::KIND_REGISTER
            || !insn::is_gpr64(ins.op1.reg) {
            return;
        }
        let src = match insn::gpr(ins.op1.reg) {
            Some(s) => self.regs[s],
            None => {
                return;
            },
        };
        if ins.mem.ip_rel {
            if let Some(g) = c.pe.va_to_rva(ins.mem.ip_rel_addr) {
                let keep = match src {
                    Val::Alloc(_, _) => true,
                    Val::This(_) => true,
                    Val::Addr(_) => true,
                    _ => false,
                };
                if keep {
                    self.facts.global_stores.push(GlobalStore { site, global: g, val: src });
                }
            }
        } else if let Val::Addr(v) = src {
            if c.vtables.contains(&v) && ins.mem.index == insn::REG_NONE {
                let dst = match self.base(ins) {
                    Some(Val::This(o)) => Val::This(field_offset(o, ins.mem.disp) as i32),
                    Some(Val::Alloc(id, o)) => Val::Alloc(id, field_offset(o, ins.mem.disp) as i32),
                    _ => Val::Unk,
                };
                self.facts.vt_stores.push(VtStore { site, vt: v, dst });
            }
        }
    }

    fn call_target(&self, c: &Code, ins: &Insn, span: &Span) -> (r: Option<(Target, bool)>)
        requires
            self.deep_view().wf(),
        ensures
            r == call_of(c.deep_view(), self.deep_view().regs, *ins, *span),
    {
        let flow = ins.head.flow;
        let t = ins.head.target;
        if flow == insn::FLOW_CALL {
            match c.pe.va_to_rva(t) {
                Some(r) => Some((c.resolve_direct(r), false)),
                None => Some((Target::Indirect, false)),
            }
        } else if flow == insn::FLOW_INDIRECT_CALL {
            if ins.mem.ip_rel {
                match slot_at(c.pe, ins.mem.ip_rel_addr) {
                    Some(s) => Some((Target::Import(s), false)),
                    None => Some((Target::Indirect, false)),
                }
            } else if ins.op0.kind == insn::KIND_MEMORY && ins.mem.index == insn::REG_NONE {
                match self.base(ins) {
                    Some(Val::FieldPtr(0)) => Some((Target::VirtualThis((ins.mem.disp / 8) as u32), false)),
                    _ => Some((Target::Indirect, false)),
                }
            } else {
                Some((Target::Indirect, false))
            }
        } else if flow == insn::FLOW_UNCONDITIONAL_BRANCH && !span.contains(t) {
            match c.pe.va_to_rva(t) {
                Some(r) => Some((c.resolve_direct(r), true)),
                None => None,
            }
        } else if flow == insn::FLOW_INDIRECT_BRANCH && ins.mem.ip_rel {
            match slot_at(c.pe, ins.mem.ip_rel_addr) {
                Some(s) => Some((Target::Import(s), true)),
                None => None,
            }
        } else {
            None
        }
    }

    fn branch(&mut self, ins: &Insn, span: &Span)
        requires
            old(self).deep_view().wf(),
        ensures
            final(self).deep_view() == (StateV {
                pending: branched(old(self).deep_view().pending, old(self).deep_view().regs, *ins, *span),
                ..old(self).deep_view()
            }),
            final(self).deep_view().wf(),
    {
        let flow = ins.head.flow;
        let t = ins.head.target;
        let ahead = t > ins.ip && ((flow == insn::FLOW_UNCONDITIONAL_BRANCH && span.contains(t)) || (flow
            == insn::FLOW_CONDITIONAL_BRANCH && t < span.end_va));
        if ahead {
            let ghost pending = self.pending.deep_view();
            proof {
                without_wf(pending, t);
            }
            let path = match self.pending.get(&t) {
                Some(e) => {
                    assert(e.deep_view() =~= e@);
                    merge_two(e, &self.regs)
                },
                None => table::copy_all(&self.regs),
            };
            assert(path.deep_view() =~= path@);
            proof {
                put_wf(pending, t, path@);
            }
            self.pending.insert(t, path);
        }
    }

    fn call(&mut self, call: Option<(Target, bool)>, site: u32)
        requires
            old(self).deep_view().wf(),
        ensures
            final(self).deep_view() == (StateV {
                facts: called(old(self).deep_view().facts, old(self).deep_view().regs, call, site),
                ..old(self).deep_view()
            }),
    {
        if let Some((target, tail)) = call {
            self.facts.calls.push(CallSite { site, target, rcx: self.regs[1], rdx: self.regs[2], tail });
            if let Val::FieldPtr(o) = self.regs[1] {
                self.facts.ptr_fields.push(o);
            }
        }
    }

    fn write(&mut self, used: &Vec<UsedReg>, dst: Option<usize>, value: Option<Val>)
        requires
            old(self).deep_view().wf(),
            dst matches Some(d) ==> d < 16,
        ensures
            final(self).deep_view() == (StateV {
                regs: written(
                    old(self).deep_view().regs,
                    used@,
                    match dst {
                        Some(d) => Some(d as int),
                        None => None,
                    },
                    value,
                ),
                ..old(self).deep_view()
            }),
            final(self).deep_view().wf(),
    {
        let ghost st = self.deep_view();
        let mut i: usize = 0;
        while i < used.len()
            invariant
                st == old(self).deep_view(),
                i <= used@.len(),
                st.wf(),
                self.regs@.len() == 16,
                self.deep_view() == (StateV { regs: self.regs@, ..st }),
                forall|r: int| 0 <= r < 16 ==> #[trigger] self.regs@[r] == (if exists|k: int|
                    0 <= k < i && insn::gpr_number((#[trigger] used@[k]).reg) == Some(r) && is_write(used@[k].access) {
                    Val::Unk
                } else {
                    st.regs[r]
                }),
            decreases used@.len() - i,
        {
            let u = used[i];
            if writes(u.access) {
                if let Some(r) = insn::gpr(u.reg) {
                    self.regs.set(r, Val::Unk);
                }
            }
            i += 1;
        }
        if let (Some(d), Some(v)) = (dst, value) {
            self.regs.set(d, v);
        }
        assert(self.regs@ =~= written(
            st.regs,
            used@,
            match dst {
                Some(d) => Some(d as int),
                None => None,
            },
            value,
        ));
    }

    fn finish_call(&mut self, call: Option<(Target, bool)>, site: u32)
        requires
            old(self).deep_view().wf(),
        ensures
            final(self).deep_view() == after_call(old(self).deep_view(), call, site),
            final(self).deep_view().wf(),
    {
        if let Some((target, tail)) = call {
            let rcx = self.regs[1];
            let n = self.facts.allocs.len();
            let mut result: Option<Val> = None;
            if let Target::Direct(t) = target {
                match rcx {
                    Val::Const(size) => {
                        if !tail && 1 <= size && size <= MAX_ALLOC {
                            self.facts.allocs.push(Allocation { site, size, allocator: t });
                            result = Some(Val::Alloc(n as u32, 0));
                        }
                    },
                    Val::Alloc(id, 0) => {
                        result = Some(Val::Alloc(id, 0));
                    },
                    _ => {},
                }
            }
            analysis::clobber(&mut self.regs);
            if let Some(v) = result {
                self.regs.set(0, v);
            }
        }
    }

    fn observe(&mut self, c: &Code, ins: &Insn, mems: &Vec<UsedMem>, span: &Span)
        requires
            old(self).deep_view().wf(),
        ensures
            final(self).deep_view() == (StateV {
                facts: observed(
                    old(self).deep_view().facts,
                    c.deep_view(),
                    old(self).deep_view().regs,
                    *ins,
                    mems@,
                    *span,
                ),
                ..old(self).deep_view()
            }),
    {
        let site = span.site_of(ins);
        self.refer(c.pe, ins, mems, site);
        self.touch_all(mems, site);
        self.operate(ins, site);
        self.store(c, ins, site);
        let call = self.call_target(c, ins, span);
        self.call(call, site);
    }

    fn execute(&mut self, c: &Code, ins: &Insn, used: &Vec<UsedReg>, span: &Span)
        requires
            old(self).deep_view().wf(),
        ensures
            final(self).deep_view() == executed(old(self).deep_view(), c.deep_view(), *ins, used@, *span),
            final(self).deep_view().wf(),
    {
        let call = self.call_target(c, ins, span);
        let value = self.value_of(c.pe, ins);
        let dst = dest_of(ins);
        self.branch(ins, span);
        self.write(used, dst, value);
        let site = span.site_of(ins);
        self.finish_call(call, site);
        let flow = ins.head.flow;
        if flow == insn::FLOW_RETURN || flow == insn::FLOW_UNCONDITIONAL_BRANCH || flow == insn::FLOW_INDIRECT_BRANCH || flow
            == insn::FLOW_INTERRUPT || flow == insn::FLOW_EXCEPTION {
            self.unreachable = true;
        }
    }

    /// Interprets one instruction, given the registers and the memory it uses.
    pub fn step(&mut self, c: &Code, ins: &Insn, used: &Vec<UsedReg>, mems: &Vec<UsedMem>, span: &Span)
        requires
            old(self).deep_view().wf(),
        ensures
            final(self).deep_view() == stepped(old(self).deep_view(), c.deep_view(), *ins, used@, mems@, *span),
            final(self).deep_view().wf(),
    {
        self.count(ins);
        self.arrive(ins.ip);
        self.use_this(ins, used, span);
        self.observe(c, ins, mems, span);
        self.execute(c, ins, used, span);
    }
}

fn merge_two(a: &Vec<Val>, b: &Vec<Val>) -> (r: Vec<Val>)
    requires
        a@.len() == 16,
        b@.len() == 16,
    ensures
        r@ == analysis::merged_regs(a@, b@),
        r@.len() == 16,
{
    analysis::merge_regs(a, b)
}

fn field_offset(o: i32, disp: u64) -> (r: i64)
    ensures
        r == offset(o, disp),
{
    (o as i64).wrapping_add(disp as i64)
}

fn field_access(m: &UsedMem, site: u32, off: i64, kind: Access) -> (r: FieldAccess)
    ensures
        r == access_at(*m, site, off, kind),
{
    FieldAccess {
        site,
        off: off as i32,
        size: m.size.bytes as u8,
        ty: VType::from_mem(m.size),
        kind,
        indexed: m.index != insn::REG_NONE,
    }
}

fn dest_of(ins: &Insn) -> (r: Option<usize>)
    ensures
        match r {
            Some(d) => dest(*ins) == Some(d as int) && d < 16,
            None => dest(*ins) is None,
        },
{
    if ins.head.op_count > 0 && ins.op0.kind == insn::KIND_REGISTER {
        insn::gpr(ins.op0.reg)
    } else {
        None
    }
}

fn dest64(ins: &Insn) -> (r: bool)
    ensures
        r == dest_is64(*ins),
{
    ins.head.op_count > 0 && ins.op0.kind == insn::KIND_REGISTER && insn::is_gpr64(ins.op0.reg)
}

fn dest_wide(ins: &Insn) -> (r: bool)
    ensures
        r == dest_is_wide(*ins),
{
    ins.head.op_count > 0 && ins.op0.kind == insn::KIND_REGISTER && (insn::is_gpr64(ins.op0.reg) || insn::is_gpr32(
        ins.op0.reg,
    ))
}

pub(crate) fn slot_at(pe: &Pe, va: u64) -> (r: Option<u32>)
    ensures
        r == import_slot(pe.deep_view(), va),
{
    match pe.va_to_rva(va) {
        Some(s) => if pe.import_at_iat(s).is_some() {
            Some(s)
        } else {
            None
        },
        None => None,
    }
}

} // verus!
