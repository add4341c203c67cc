//! What holds of the abstract interpreter: how each instruction moves the
//! values that are tracked, and which facts it leaves behind.

use vstd::prelude::*;

use crate::analysis;
use crate::analysis::{Access, Allocation, CallSite, CodeV, FieldAccess, FuncFactsV, GlobalStore, RipRef, Target, VType, Val, VtStore};
use crate::insn;
use crate::insn::{Insn, UsedMem, UsedReg};
use crate::interp;
use crate::interp::{Span, StateV};
use crate::pe::PeV;
use crate::table;
use crate::words;

verus! {

/// Control falls through to `ip`, and nothing branched there.
pub open spec fn falls_to(st: StateV, ip: u64) -> bool {
    st.regs.len() == 16 && !st.unreachable && table::get(st.pending, ip) is None
}

/// The instruction neither branches nor calls nor returns.
pub open spec fn goes_on(ins: Insn) -> bool {
    ins.head.flow == 0
}

/// The first operand is the 64-bit register `d`, counted from RAX.
pub open spec fn into64(ins: Insn, d: int) -> bool {
    0 <= d < 16 && ins.head.op_count >= 1 && ins.op0.kind == insn::KIND_REGISTER && ins.op0.reg == insn::REG_RAX + d
}

/// The first operand is the 32-bit register `d`, counted from EAX.
pub open spec fn into32(ins: Insn, d: int) -> bool {
    0 <= d < 16 && ins.head.op_count >= 1 && ins.op0.kind == insn::KIND_REGISTER && ins.op0.reg == insn::REG_EAX + d
}

/// The second operand is the 64-bit register `s`.
pub open spec fn from64(ins: Insn, s: int) -> bool {
    0 <= s < 16 && ins.op1.kind == insn::KIND_REGISTER && ins.op1.reg == insn::REG_RAX + s
}

/// The second operand is the 32-bit register `s`.
pub open spec fn from32(ins: Insn, s: int) -> bool {
    0 <= s < 16 && ins.op1.kind == insn::KIND_REGISTER && ins.op1.reg == insn::REG_EAX + s
}

/// The memory operand is `[b + displacement]` for the 64-bit register `b`.
pub open spec fn at_register(ins: Insn, b: int) -> bool {
    0 <= b < 16 && !ins.mem.ip_rel && ins.mem.base == insn::REG_RAX + b && ins.mem.index == insn::REG_NONE
}

/// Offsets that an object can have: less than half a megabyte.
pub open spec fn believable(off: int) -> bool {
    0 <= off < 0x80000
}

/// Displacements that do not leave the address space.
pub open spec fn moderate(disp: u64) -> bool {
    -0x4000_0000_0000_0000 <= words::signed64(disp) < 0x4000_0000_0000_0000
}

/// No register that the instruction writes is part of register `i`.
pub open spec fn spares(used: Seq<UsedReg>, i: int) -> bool {
    forall|k: int|
        0 <= k < used.len() && insn::gpr_number((#[trigger] used[k]).reg) == Some(i) ==> used[k].access
            != insn::ACCESS_WRITE && used[k].access != insn::ACCESS_COND_WRITE && used[k].access != insn::ACCESS_READ_WRITE
            && used[k].access != insn::ACCESS_READ_COND_WRITE
}

// ---------------------------------------------------------------------------
// Entry.

/// A function is entered with `this` in RCX and its argument in RDX; nothing is
/// known of the other registers, and nothing of the function.
pub proof fn entered_with_this(start: u32, end: u32, i: int)
    requires
        0 <= i < 16,
    ensures
        ({
            let st = StateV::entry(start, end);
            &&& falls_to(st, 0)
            &&& st.pending.len() == 0
            &&& st.regs[1] == Val::This(0)
            &&& st.regs[2] == Val::Arg1
            &&& i != 1 && i != 2 ==> st.regs[i] == Val::Unk
            &&& st.facts.start == start && st.facts.end == end && st.facts.insns == 0
            &&& st.facts.fields.len() == 0 && st.facts.calls.len() == 0 && st.facts.allocs.len() == 0
            &&& st.facts.vt_stores.len() == 0 && st.facts.global_stores.len() == 0 && st.facts.rip_refs.len() == 0
            &&& !st.facts.uses_this && !st.facts.tests_arg_bit && !st.rcx_written
        }),
{
}

// ---------------------------------------------------------------------------
// Registers.

/// After a `mov` between 64-bit registers the destination holds what the source
/// held, whatever that was; a copy of `this` is `this`.
pub proof fn copies_hold_the_same(
    st: StateV,
    c: CodeV,
    ins: Insn,
    used: Seq<UsedReg>,
    mems: Seq<UsedMem>,
    span: Span,
    d: int,
    s: int,
)
    requires
        falls_to(st, ins.ip),
        goes_on(ins),
        ins.head.mnemonic == insn::MNEM_MOV,
        into64(ins, d),
        from64(ins, s),
    ensures
        interp::stepped(st, c, ins, used, mems, span).regs[d] == st.regs[s],
        !interp::stepped(st, c, ins, used, mems, span).unreachable,
        st.pending.len() == 0 ==> interp::stepped(st, c, ins, used, mems, span).pending.len() == 0,
{
}

/// A `mov` between 32-bit registers keeps the low half of a constant, and that
/// an argument is one; pointers are lost.
pub proof fn half_copies_hold_numbers(
    st: StateV,
    c: CodeV,
    ins: Insn,
    used: Seq<UsedReg>,
    mems: Seq<UsedMem>,
    span: Span,
    d: int,
    s: int,
)
    requires
        falls_to(st, ins.ip),
        goes_on(ins),
        ins.head.mnemonic == insn::MNEM_MOV,
        into32(ins, d),
        from32(ins, s),
    ensures
        ({
            let v = interp::stepped(st, c, ins, used, mems, span).regs[d];
            &&& st.regs[s] matches Val::Const(n) ==> v == Val::Const((n % 0x1_0000_0000) as u64)
            &&& st.regs[s] == Val::Arg1 ==> v == Val::Arg1
            &&& !(st.regs[s] is Const) && !(st.regs[s] is Arg1) ==> v == Val::Unk
        }),
{
    if let Val::Const(n) = st.regs[s] {
        words::low_of_64(n);
    }
}

/// A `mov` of an immediate loads it, into a 32-bit register its low half.
pub proof fn immediates_are_loaded(
    st: StateV,
    c: CodeV,
    ins: Insn,
    used: Seq<UsedReg>,
    mems: Seq<UsedMem>,
    span: Span,
    d: int,
    v: u64,
)
    requires
        falls_to(st, ins.ip),
        goes_on(ins),
        ins.head.mnemonic == insn::MNEM_MOV,
        6 <= ins.op1.kind <= 14,
        ins.op1.kind != 7 && ins.op1.kind != 11,
        ins.op1.imm == Some(v),
    ensures
        into64(ins, d) ==> interp::stepped(st, c, ins, used, mems, span).regs[d] == Val::Const(v),
        into32(ins, d) ==> interp::stepped(st, c, ins, used, mems, span).regs[d] == Val::Const((v % 0x1_0000_0000) as u64),
{
    words::low_of_64(v);
}

/// A pointer that is loaded from an offset of `this` is known as the pointer at
/// that offset.
pub proof fn loads_are_field_pointers(
    st: StateV,
    c: CodeV,
    ins: Insn,
    used: Seq<UsedReg>,
    mems: Seq<UsedMem>,
    span: Span,
    d: int,
    b: int,
    o: i32,
)
    requires
        falls_to(st, ins.ip),
        goes_on(ins),
        ins.head.mnemonic == insn::MNEM_MOV,
        into64(ins, d),
        ins.op1.kind == insn::KIND_MEMORY,
        at_register(ins, b),
        st.regs[b] == Val::This(o),
        moderate(ins.mem.disp),
    ensures
        ({
            let off = o + words::signed64(ins.mem.disp);
            let v = interp::stepped(st, c, ins, used, mems, span).regs[d];
            &&& believable(off) ==> v == Val::FieldPtr(off as i32)
            &&& !believable(off) ==> v == Val::Unk
        }),
{
    words::sign_of_64(ins.mem.disp);
}

/// What is loaded from an address in the image is known as the value of that
/// global.
pub proof fn loads_are_globals(
    st: StateV,
    c: CodeV,
    ins: Insn,
    used: Seq<UsedReg>,
    mems: Seq<UsedMem>,
    span: Span,
    d: int,
    g: u32,
)
    requires
        falls_to(st, ins.ip),
        goes_on(ins),
        ins.head.mnemonic == insn::MNEM_MOV,
        into64(ins, d),
        ins.op1.kind == insn::KIND_MEMORY,
        ins.mem.ip_rel,
        ins.mem.ip_rel_addr == c.pe.image_base + g,
        g < c.pe.size_of_image,
    ensures
        interp::stepped(st, c, ins, used, mems, span).regs[d] == Val::Glob(g),
{
}

/// The address of a member is `this` moved by the displacement; unless the
/// displacement is none, taking it is recorded as an access to the member.
pub proof fn member_addresses_are_tracked(
    st: StateV,
    c: CodeV,
    ins: Insn,
    used: Seq<UsedReg>,
    mems: Seq<UsedMem>,
    span: Span,
    d: int,
    b: int,
    o: i32,
)
    requires
        falls_to(st, ins.ip),
        goes_on(ins),
        ins.head.mnemonic == insn::MNEM_LEA,
        into64(ins, d),
        at_register(ins, b),
        st.regs[b] == Val::This(o),
        moderate(ins.mem.disp),
    ensures
        ({
            let off = o + words::signed64(ins.mem.disp);
            let r = interp::stepped(st, c, ins, used, mems, span);
            &&& -0x80000 <= off < 0x80000 ==> r.regs[d] == Val::This(off as i32)
            &&& !(-0x80000 <= off < 0x80000) ==> r.regs[d] == Val::Unk
            &&& believable(off) && ins.mem.disp != 0 ==> r.facts.fields.len() > 0 && r.facts.fields.last() == (FieldAccess {
                site: span.site(ins),
                off: off as i32,
                size: 0,
                ty: VType::Unknown,
                kind: Access::Addr,
                indexed: false,
            })
        }),
{
    words::sign_of_64(ins.mem.disp);
}

/// The address of a place in the image is known as that address.
pub proof fn image_addresses_are_tracked(
    st: StateV,
    c: CodeV,
    ins: Insn,
    used: Seq<UsedReg>,
    mems: Seq<UsedMem>,
    span: Span,
    d: int,
    a: u32,
)
    requires
        falls_to(st, ins.ip),
        goes_on(ins),
        ins.head.mnemonic == insn::MNEM_LEA,
        into64(ins, d),
        ins.mem.ip_rel,
        ins.mem.ip_rel_addr == c.pe.image_base + a,
        a < c.pe.size_of_image,
    ensures
        interp::stepped(st, c, ins, used, mems, span).regs[d] == Val::Addr(a),
{
}

/// A register that is combined with itself by `xor` holds zero.
pub proof fn cleared_registers_hold_zero(
    st: StateV,
    c: CodeV,
    ins: Insn,
    used: Seq<UsedReg>,
    mems: Seq<UsedMem>,
    span: Span,
    d: int,
)
    requires
        falls_to(st, ins.ip),
        goes_on(ins),
        ins.head.mnemonic == insn::MNEM_XOR,
        (into64(ins, d) && from64(ins, d)) || (into32(ins, d) && from32(ins, d)),
    ensures
        interp::stepped(st, c, ins, used, mems, span).regs[d] == Val::Const(0),
{
}

/// Adding a number to `this` or to an allocation moves the offset by it, and
/// subtracting it moves it back; what else is added to is forgotten.
pub proof fn sums_move_offsets(
    st: StateV,
    c: CodeV,
    ins: Insn,
    used: Seq<UsedReg>,
    mems: Seq<UsedMem>,
    span: Span,
    d: int,
    v: u64,
)
    requires
        falls_to(st, ins.ip),
        goes_on(ins),
        ins.head.mnemonic == insn::MNEM_ADD || ins.head.mnemonic == insn::MNEM_SUB,
        into64(ins, d),
        ins.head.op_count == 2,
        6 <= ins.op1.kind <= 14,
        ins.op1.imm == Some(v),
        moderate(v),
    ensures
        ({
            let n = if ins.head.mnemonic == insn::MNEM_ADD {
                words::signed64(v)
            } else {
                -words::signed64(v)
            };
            let r = interp::stepped(st, c, ins, used, mems, span).regs[d];
            &&& st.regs[d] matches Val::This(o) ==> if -0x80000 <= o + n < 0x80000 {
                r == Val::This((o + n) as i32)
            } else {
                r == Val::Unk
            }
            &&& st.regs[d] matches Val::Alloc(id, o) ==> (i32::MIN <= o + n <= i32::MAX ==> r == Val::Alloc(
                id,
                (o + n) as i32,
            ))
            &&& !(st.regs[d] is This) && !(st.regs[d] is Alloc) ==> r == Val::Unk
        }),
{
    words::sign_of_64(v);
    assert(ins.imm_from(0) == ins.imm_from(1));
    assert(ins.imm() == Some(v));
}

/// An instruction that goes on leaves a register alone that it does not write.
pub proof fn other_registers_are_kept(
    st: StateV,
    c: CodeV,
    ins: Insn,
    used: Seq<UsedReg>,
    mems: Seq<UsedMem>,
    span: Span,
    i: int,
)
    requires
        falls_to(st, ins.ip),
        goes_on(ins),
        0 <= i < 16,
        spares(used, i),
        ins.head.op_count >= 1 && ins.op0.kind == insn::KIND_REGISTER ==> insn::gpr_number(ins.op0.reg) != Some(i),
    ensures
        interp::stepped(st, c, ins, used, mems, span).regs[i] == st.regs[i],
{
}

/// A register that an instruction writes is forgotten, unless the instruction
/// is one that computes what is tracked.
pub proof fn written_registers_are_forgotten(
    st: StateV,
    c: CodeV,
    ins: Insn,
    used: Seq<UsedReg>,
    mems: Seq<UsedMem>,
    span: Span,
    i: int,
)
    requires
        falls_to(st, ins.ip),
        goes_on(ins),
        0 <= i < 16,
        !spares(used, i),
        ins.head.mnemonic != insn::MNEM_MOV && ins.head.mnemonic != insn::MNEM_LEA && ins.head.mnemonic != insn::MNEM_XOR
            && ins.head.mnemonic != insn::MNEM_ADD && ins.head.mnemonic != insn::MNEM_SUB,
    ensures
        interp::stepped(st, c, ins, used, mems, span).regs[i] == Val::Unk,
{
    let k = choose|k: int|
        0 <= k < used.len() && insn::gpr_number((#[trigger] used[k]).reg) == Some(i) && !(used[k].access
            != insn::ACCESS_WRITE && used[k].access != insn::ACCESS_COND_WRITE && used[k].access != insn::ACCESS_READ_WRITE
            && used[k].access != insn::ACCESS_READ_COND_WRITE);
    assert(interp::is_write(used[k].access));
}

// ---------------------------------------------------------------------------
// Members.

/// The access to a member that a memory operand makes, `this` being `o` behind
/// the start of the object in the base register.
pub open spec fn member_access(m: UsedMem, o: i32, site: u32) -> FieldAccess {
    FieldAccess {
        site,
        off: (o + words::signed64(m.disp)) as i32,
        size: m.size.bytes as u8,
        ty: VType::of(m.size),
        kind: if 3 <= m.access <= 6 {
            Access::Write
        } else {
            Access::Read
        },
        indexed: m.index != 0,
    }
}

/// The register holds `this`, `o` behind the start of the object.
pub open spec fn holds_this(regs: Seq<Val>, reg: u32, o: i32) -> bool {
    insn::gpr_number(reg) is Some && regs[insn::gpr_number(reg).unwrap()] == Val::This(o)
}

/// The memory operand reaches a member through `this`.
pub open spec fn reaches_member(regs: Seq<Val>, m: UsedMem, o: i32) -> bool {
    holds_this(regs, m.base, o) && believable(o + words::signed64(m.disp))
}

proof fn one_touch(f: FuncFactsV, regs: Seq<Val>, m: UsedMem, site: u32)
    requires
        regs.len() == 16,
        moderate(m.disp),
    ensures
        ({
            let g = interp::touched(f, regs, m, site).fields;
            &&& extends(f.fields, g)
            &&& forall|o: i32| reaches_member(regs, m, o) ==> g.contains(#[trigger] member_access(m, o, site))
            &&& g.len() > f.fields.len() ==> g.len() == f.fields.len() + 1 && exists|o: i32|
                reaches_member(regs, m, o) && g.last() == #[trigger] member_access(m, o, site)
        }),
{
    words::sign_of_64(m.disp);
    let g = interp::touched(f, regs, m, site).fields;
    if let Some(b) = insn::gpr_number(m.base) {
        if let Val::This(o) = regs[b] {
            if believable(o + words::signed64(m.disp)) {
                assert(g.last() == member_access(m, o, site));
                assert(g[g.len() - 1] == g.last());
            }
        }
    }
}

/// What `a` lists stays in `b`, and more may come behind it.
pub open spec fn extends<A>(a: Seq<A>, b: Seq<A>) -> bool {
    a.len() <= b.len() && forall|i: int| 0 <= i < a.len() ==> #[trigger] b[i] == a[i]
}

proof fn all_touched(f: FuncFactsV, regs: Seq<Val>, mems: Seq<UsedMem>, site: u32, n: int)
    requires
        regs.len() == 16,
        0 <= n <= mems.len(),
        forall|k: int| 0 <= k < n ==> moderate((#[trigger] mems[k]).disp),
    ensures
        ({
            let g = interp::touched_all(f, regs, mems, site, n).fields;
            &&& extends(f.fields, g)
            &&& forall|k: int, o: i32|
                0 <= k < n && reaches_member(regs, mems[k], o) ==> g.contains(#[trigger] member_access(mems[k], o, site))
            &&& forall|i: int|
                f.fields.len() <= i < g.len() ==> exists|k: int, o: i32|
                    0 <= k < n && reaches_member(regs, mems[k], o) && #[trigger] g[i] == #[trigger] member_access(
                        mems[k],
                        o,
                        site,
                    )
        }),
    decreases n,
{
    if n > 0 {
        all_touched(f, regs, mems, site, n - 1);
        let h = interp::touched_all(f, regs, mems, site, n - 1).fields;
        let g = interp::touched_all(f, regs, mems, site, n).fields;
        one_touch(interp::touched_all(f, regs, mems, site, n - 1), regs, mems[n - 1], site);
        assert forall|k: int, o: i32| 0 <= k < n && reaches_member(regs, mems[k], o) implies g.contains(
            #[trigger] member_access(mems[k], o, site),
        ) by {
            if k < n - 1 {
                let x = member_access(mems[k], o, site);
                assert(h.contains(x));
                let i = choose|i: int| 0 <= i < h.len() && h[i] == x;
                assert(g[i] == x);
            }
        }
        assert forall|i: int| f.fields.len() <= i < g.len() implies exists|k: int, o: i32|
            0 <= k < n && reaches_member(regs, mems[k], o) && #[trigger] g[i] == #[trigger] member_access(
                mems[k],
                o,
                site,
            ) by {
            if i < h.len() {
                assert(g[i] == h[i]);
                let (k, o) = choose|k: int, o: i32|
                    0 <= k < n - 1 && reaches_member(regs, mems[k], o) && h[i] == #[trigger] member_access(mems[k], o, site);
                assert(g[i] == member_access(mems[k], o, site));
            } else {
                let o = choose|o: i32|
                    reaches_member(regs, mems[n - 1], o) && g.last() == #[trigger] member_access(mems[n - 1], o, site);
                assert(g[i] == member_access(mems[n - 1], o, site));
            }
        }
    }
}

/// Every memory operand on a register that holds `this`, or `this` moved, is
/// recorded as an access to the member at that offset, with its size, type and
/// direction; what was recorded before stays.
pub proof fn members_are_recorded(
    st: StateV,
    c: CodeV,
    ins: Insn,
    used: Seq<UsedReg>,
    mems: Seq<UsedMem>,
    span: Span,
    k: int,
    b: int,
    o: i32,
)
    requires
        falls_to(st, ins.ip),
        forall|j: int| 0 <= j < mems.len() ==> moderate((#[trigger] mems[j]).disp),
        0 <= k < mems.len(),
        0 <= b < 16,
        mems[k].base == insn::REG_RAX + b,
        st.regs[b] == Val::This(o),
        believable(o + words::signed64(mems[k].disp)),
    ensures
        ({
            let g = interp::stepped(st, c, ins, used, mems, span).facts.fields;
            &&& extends(st.facts.fields, g)
            &&& g.contains(member_access(mems[k], o, span.site(ins)))
        }),
{
    let f0 = interp::used_this(interp::arrived(interp::counted(st, ins), ins.ip), ins, used, span);
    let site = span.site(ins);
    let f1 = interp::referenced(f0.facts, c.pe, ins, mems, site);
    all_touched(f1, st.regs, mems, site, mems.len() as int);
    let h = interp::touched_all(f1, st.regs, mems, site, mems.len() as int).fields;
    let g = interp::stepped(st, c, ins, used, mems, span).facts.fields;
    let x = member_access(mems[k], o, site);
    assert(reaches_member(st.regs, mems[k], o));
    assert(h.contains(x));
    let i = choose|i: int| 0 <= i < h.len() && h[i] == x;
    assert(extends(h, g));
    assert(g[i] == x);
}

/// Nothing else is recorded: behind what was there, each access is one that a
/// memory operand of the instruction makes through `this`, or the address that
/// a `lea` takes.
pub proof fn only_members_are_recorded(
    st: StateV,
    c: CodeV,
    ins: Insn,
    used: Seq<UsedReg>,
    mems: Seq<UsedMem>,
    span: Span,
    i: int,
)
    requires
        falls_to(st, ins.ip),
        forall|j: int| 0 <= j < mems.len() ==> moderate((#[trigger] mems[j]).disp),
        moderate(ins.mem.disp),
        st.facts.fields.len() <= i < interp::stepped(st, c, ins, used, mems, span).facts.fields.len(),
    ensures
        ({
            let x = interp::stepped(st, c, ins, used, mems, span).facts.fields[i];
            ||| exists|k: int, o: i32|
                0 <= k < mems.len() && reaches_member(st.regs, mems[k], o) && x == #[trigger] member_access(
                    mems[k],
                    o,
                    span.site(ins),
                )
            ||| ins.head.mnemonic == insn::MNEM_LEA && ins.mem.disp != 0 && x.kind == Access::Addr && x.site == span.site(ins)
                && believable(x.off as int) && exists|o: i32| #[trigger]
                holds_this(st.regs, ins.mem.base, o) && x.off == o + words::signed64(ins.mem.disp)
        }),
{
    let f0 = interp::used_this(interp::arrived(interp::counted(st, ins), ins.ip), ins, used, span);
    let site = span.site(ins);
    let f1 = interp::referenced(f0.facts, c.pe, ins, mems, site);
    all_touched(f1, st.regs, mems, site, mems.len() as int);
    let h = interp::touched_all(f1, st.regs, mems, site, mems.len() as int).fields;
    let g = interp::stepped(st, c, ins, used, mems, span).facts.fields;
    words::sign_of_64(ins.mem.disp);
    assert(extends(h, g));
    if i < h.len() {
        assert(g[i] == h[i]);
        let (k, o) = choose|k: int, o: i32|
            0 <= k < mems.len() && reaches_member(st.regs, mems[k], o) && h[i] == #[trigger] member_access(mems[k], o, site);
        assert(g[i] == member_access(mems[k], o, site));
    } else if let Some(b) = insn::gpr_number(ins.mem.base) {
        if let Val::This(o) = st.regs[b] {
            assert(holds_this(st.regs, ins.mem.base, o));
        }
    }
}

// ---------------------------------------------------------------------------
// Stores, references and calls.

/// Storing the address of a vtable through `this` or through an allocation is
/// recorded with the object and the offset it goes to.
pub proof fn vtable_stores_are_recorded(
    st: StateV,
    c: CodeV,
    ins: Insn,
    used: Seq<UsedReg>,
    mems: Seq<UsedMem>,
    span: Span,
    s: int,
    b: int,
    vt: u32,
)
    requires
        falls_to(st, ins.ip),
        ins.head.mnemonic == insn::MNEM_MOV,
        ins.op0.kind == insn::KIND_MEMORY,
        from64(ins, s),
        at_register(ins, b),
        st.regs[s] == Val::Addr(vt),
        table::holds(c.vtables, vt),
        moderate(ins.mem.disp),
    ensures
        ({
            let was = st.facts.vt_stores;
            let now = interp::stepped(st, c, ins, used, mems, span).facts.vt_stores;
            let at = words::signed64(ins.mem.disp);
            &&& now.len() == was.len() + 1 && extends(was, now)
            &&& now.last().site == span.site(ins) && now.last().vt == vt
            &&& st.regs[b] matches Val::This(o) ==> (i32::MIN <= o + at <= i32::MAX ==> now.last().dst == Val::This(
                (o + at) as i32,
            ))
            &&& st.regs[b] matches Val::Alloc(id, o) ==> (i32::MIN <= o + at <= i32::MAX ==> now.last().dst == Val::Alloc(
                id,
                (o + at) as i32,
            ))
            &&& !(st.regs[b] is This) && !(st.regs[b] is Alloc) ==> now.last().dst == Val::Unk
        }),
{
    words::sign_of_64(ins.mem.disp);
    touching_keeps_rest(st, c, ins, used, mems, span);
}

/// No other instruction counts as a store of a vtable: a new one is the store
/// of a 64-bit register that holds the address of a vtable.
pub proof fn only_vtable_stores_are_recorded(
    st: StateV,
    c: CodeV,
    ins: Insn,
    used: Seq<UsedReg>,
    mems: Seq<UsedMem>,
    span: Span,
)
    requires
        falls_to(st, ins.ip),
    ensures
        ({
            let was = st.facts.vt_stores;
            let now = interp::stepped(st, c, ins, used, mems, span).facts.vt_stores;
            now == was || (now.len() == was.len() + 1 && ins.head.mnemonic == insn::MNEM_MOV && !ins.mem.ip_rel && exists|
                s: int,
            | #[trigger]
                from64(ins, s) && st.regs[s] == Val::Addr(now.last().vt) && table::holds(c.vtables, now.last().vt))
        }),
{
    touching_keeps_rest(st, c, ins, used, mems, span);
    if let Some(s) = insn::gpr_number(ins.op1.reg) {
        if interp::stored(st.regs, ins) is Some {
            assert(from64(ins, s));
        }
    }
}

/// Storing an object, or an address in the image, to a global is recorded with
/// the global and the value; other values are not.
pub proof fn global_stores_are_recorded(
    st: StateV,
    c: CodeV,
    ins: Insn,
    used: Seq<UsedReg>,
    mems: Seq<UsedMem>,
    span: Span,
    s: int,
    g: u32,
)
    requires
        falls_to(st, ins.ip),
        ins.head.mnemonic == insn::MNEM_MOV,
        ins.op0.kind == insn::KIND_MEMORY,
        from64(ins, s),
        ins.mem.ip_rel,
        ins.mem.ip_rel_addr == c.pe.image_base + g,
        g < c.pe.size_of_image,
    ensures
        ({
            let was = st.facts.global_stores;
            let now = interp::stepped(st, c, ins, used, mems, span).facts.global_stores;
            if st.regs[s] is This || st.regs[s] is Alloc || st.regs[s] is Addr {
                now == was.push(GlobalStore { site: span.site(ins), global: g, val: st.regs[s] })
            } else {
                now == was
            }
        }),
{
    touching_keeps_rest(st, c, ins, used, mems, span);
}

/// An operand relative to the instruction pointer is recorded as a reference to
/// the address in the image, as taking that address, writing or reading it.
pub proof fn references_are_recorded(
    st: StateV,
    c: CodeV,
    ins: Insn,
    used: Seq<UsedReg>,
    mems: Seq<UsedMem>,
    span: Span,
    g: u32,
)
    requires
        falls_to(st, ins.ip),
        ins.mem.ip_rel,
        ins.mem.ip_rel_addr == c.pe.image_base + g,
        g < c.pe.size_of_image,
    ensures
        ({
            let was = st.facts.rip_refs;
            let now = interp::stepped(st, c, ins, used, mems, span).facts.rip_refs;
            &&& now.len() == was.len() + 1 && extends(was, now)
            &&& now.last().site == span.site(ins) && now.last().target == g
            &&& now.last().size == ins.mem.size.bytes as u8 && now.last().ty == VType::of(ins.mem.size)
            &&& ins.head.mnemonic == insn::MNEM_LEA <==> now.last().kind == Access::Addr
            &&& ins.head.mnemonic != insn::MNEM_LEA ==> (now.last().kind == Access::Write <==> exists|k: int|
                0 <= k < mems.len() && (#[trigger] mems[k]).base == insn::REG_RIP && 3 <= mems[k].access <= 6)
        }),
{
    touching_keeps_rest(st, c, ins, used, mems, span);
    if interp::writes_rip(mems) {
        let k = choose|k: int| 0 <= k < mems.len() && (#[trigger] mems[k]).base == insn::REG_RIP && interp::is_write(mems[k].access);
        assert(3 <= mems[k].access <= 6);
    }
    if exists|k: int| 0 <= k < mems.len() && (#[trigger] mems[k]).base == insn::REG_RIP && 3 <= mems[k].access <= 6 {
        let k = choose|k: int|
            0 <= k < mems.len() && (#[trigger] mems[k]).base == insn::REG_RIP && 3 <= mems[k].access <= 6;
        assert(interp::is_write(mems[k].access));
    }
}

/// A call is recorded with where it goes and what RCX and RDX hold; it leaves
/// nothing in the registers that calls do not preserve, and the others alone.
pub proof fn calls_are_recorded(
    st: StateV,
    c: CodeV,
    ins: Insn,
    used: Seq<UsedReg>,
    mems: Seq<UsedMem>,
    span: Span,
    t: u32,
)
    requires
        falls_to(st, ins.ip),
        ins.head.flow == insn::FLOW_CALL,
        ins.head.op_count >= 1,
        ins.op0.kind == insn::KIND_NEAR_BRANCH64,
        ins.head.target == c.pe.image_base + t,
        t < c.pe.size_of_image,
    ensures
        ({
            let was = st.facts.calls;
            let r = interp::stepped(st, c, ins, used, mems, span);
            let now = r.facts.calls;
            &&& now.len() == was.len() + 1 && extends(was, now)
            &&& now.last().site == span.site(ins) && now.last().target == c.resolve_direct(t) && !now.last().tail
            &&& now.last().rcx == st.regs[1] && now.last().rdx == st.regs[2]
            &&& r.regs[1] == Val::Unk && r.regs[2] == Val::Unk && r.regs[8] == Val::Unk && r.regs[9] == Val::Unk && r.regs[10]
                == Val::Unk && r.regs[11] == Val::Unk
            &&& forall|i: int|
                (3 <= i <= 7 || 12 <= i <= 15) && spares(used, i) ==> #[trigger] r.regs[i] == st.regs[i]
        }),
{
    touching_keeps_rest(st, c, ins, used, mems, span);
}

/// A call of a function with a believable constant in RCX allocates that many
/// bytes: RAX holds the new allocation. A call on an allocation returns it.
/// Otherwise nothing is known of what a call returns.
pub proof fn allocations_are_recorded(
    st: StateV,
    c: CodeV,
    ins: Insn,
    used: Seq<UsedReg>,
    mems: Seq<UsedMem>,
    span: Span,
    t: u32,
    f: u32,
)
    requires
        falls_to(st, ins.ip),
        ins.head.flow == insn::FLOW_CALL,
        ins.head.op_count >= 1,
        ins.op0.kind == insn::KIND_NEAR_BRANCH64,
        ins.head.target == c.pe.image_base + t,
        t < c.pe.size_of_image,
        c.resolve_direct(t) == Target::Direct(f),
        spares(used, 1),
    ensures
        ({
            let was = st.facts.allocs;
            let r = interp::stepped(st, c, ins, used, mems, span);
            let now = r.facts.allocs;
            &&& st.regs[1] matches Val::Const(n) ==> if 1 <= n <= 0x10_0000 {
                now == was.push(Allocation { site: span.site(ins), size: n, allocator: f }) && r.regs[0] == Val::Alloc(
                    was.len() as u32,
                    0,
                )
            } else {
                now == was && r.regs[0] == Val::Unk
            }
            &&& st.regs[1] matches Val::Alloc(id, o) ==> now == was && r.regs[0] == if o == 0 {
                Val::Alloc(id, 0)
            } else {
                Val::Unk
            }
            &&& !(st.regs[1] is Const) && !(st.regs[1] is Alloc) ==> now == was && r.regs[0] == Val::Unk
        }),
{
    touching_keeps_rest(st, c, ins, used, mems, span);
}

/// A call through the vtable of `this` is a virtual call: the slot is the
/// displacement in words of eight bytes.
pub proof fn virtual_calls_are_recorded(
    st: StateV,
    c: CodeV,
    ins: Insn,
    used: Seq<UsedReg>,
    mems: Seq<UsedMem>,
    span: Span,
    b: int,
    slot: u32,
)
    requires
        falls_to(st, ins.ip),
        ins.head.flow == insn::FLOW_INDIRECT_CALL,
        ins.head.op_count >= 1,
        ins.op0.kind == insn::KIND_MEMORY,
        at_register(ins, b),
        ins.mem.disp == 8 * slot,
    ensures
        ({
            let now = interp::stepped(st, c, ins, used, mems, span).facts.calls;
            &&& now.len() == st.facts.calls.len() + 1 && extends(st.facts.calls, now)
            &&& st.regs[b] == Val::FieldPtr(0) ==> now.last().target == Target::VirtualThis(slot)
            &&& st.regs[b] != Val::FieldPtr(0) ==> now.last().target == Target::Indirect
            &&& !now.last().tail && now.last().rcx == st.regs[1]
        }),
{
    touching_keeps_rest(st, c, ins, used, mems, span);
}

/// A call through a slot of the import table goes to that import.
pub proof fn import_calls_are_recorded(
    st: StateV,
    c: CodeV,
    ins: Insn,
    used: Seq<UsedReg>,
    mems: Seq<UsedMem>,
    span: Span,
    slot: u32,
)
    requires
        falls_to(st, ins.ip),
        ins.head.flow == insn::FLOW_INDIRECT_CALL || ins.head.flow == insn::FLOW_INDIRECT_BRANCH,
        ins.mem.ip_rel,
        ins.mem.ip_rel_addr == c.pe.image_base + slot,
        slot < c.pe.size_of_image,
        c.pe.import_at_iat(slot) is Some,
    ensures
        ({
            let now = interp::stepped(st, c, ins, used, mems, span).facts.calls;
            &&& now.len() == st.facts.calls.len() + 1 && extends(st.facts.calls, now)
            &&& now.last().target == Target::Import(slot)
            &&& now.last().tail == (ins.head.flow == insn::FLOW_INDIRECT_BRANCH)
        }),
{
    touching_keeps_rest(st, c, ins, used, mems, span);
}

/// A jump out of the function is a call in tail position; one inside is none.
pub proof fn jumps_out_are_tail_calls(
    st: StateV,
    c: CodeV,
    ins: Insn,
    used: Seq<UsedReg>,
    mems: Seq<UsedMem>,
    span: Span,
    t: u32,
)
    requires
        falls_to(st, ins.ip),
        ins.head.flow == insn::FLOW_UNCONDITIONAL_BRANCH,
        ins.head.target == c.pe.image_base + t,
        t < c.pe.size_of_image,
    ensures
        ({
            let was = st.facts.calls;
            let now = interp::stepped(st, c, ins, used, mems, span).facts.calls;
            if span.start_va <= ins.head.target < span.end_va {
                now == was
            } else {
                now.len() == was.len() + 1 && now.last().target == c.resolve_direct(t) && now.last().tail
            }
        }),
{
    touching_keeps_rest(st, c, ins, used, mems, span);
}

/// The lists of facts that memory operands do not touch.
proof fn touching_keeps_rest(st: StateV, c: CodeV, ins: Insn, used: Seq<UsedReg>, mems: Seq<UsedMem>, span: Span)
    ensures
        ({
            let f0 = interp::used_this(interp::arrived(interp::counted(st, ins), ins.ip), ins, used, span);
            let f1 = interp::referenced(f0.facts, c.pe, ins, mems, span.site(ins));
            let regs = f0.regs;
            let g = interp::touched_all(f1, regs, mems, span.site(ins), mems.len() as int);
            &&& g.vt_stores == st.facts.vt_stores
            &&& g.global_stores == st.facts.global_stores
            &&& g.rip_refs == f1.rip_refs
            &&& g.calls == st.facts.calls
            &&& g.allocs == st.facts.allocs
            &&& g.tests_arg_bit == st.facts.tests_arg_bit
        }),
{
    let f0 = interp::used_this(interp::arrived(interp::counted(st, ins), ins.ip), ins, used, span);
    let f1 = interp::referenced(f0.facts, c.pe, ins, mems, span.site(ins));
    touches_keep(f1, f0.regs, mems, span.site(ins), mems.len() as int);
}

proof fn touches_keep(f: FuncFactsV, regs: Seq<Val>, mems: Seq<UsedMem>, site: u32, n: int)
    ensures
        ({
            let g = interp::touched_all(f, regs, mems, site, n);
            &&& g.vt_stores == f.vt_stores
            &&& g.global_stores == f.global_stores
            &&& g.rip_refs == f.rip_refs
            &&& g.calls == f.calls
            &&& g.allocs == f.allocs
            &&& g.tests_arg_bit == f.tests_arg_bit
            &&& extends(f.fields, g.fields)
        }),
    decreases n,
{
    if n > 0 {
        touches_keep(f, regs, mems, site, n - 1);
    }
}

// ---------------------------------------------------------------------------
// Paths.

/// Where a branch arrives, a register holds what both paths agree on; an object
/// on one path and null on the other count as the object, and everything else
/// is unknown. Behind a jump or a return only the branch counts.
pub proof fn paths_meet(st: StateV, ip: u64, p: Seq<Val>, i: int)
    requires
        st.regs.len() == 16,
        p.len() == 16,
        table::get(st.pending, ip) == Some(p),
        0 <= i < 16,
    ensures
        ({
            let v = interp::arrived(st, ip).regs[i];
            let a = st.regs[i];
            let b = p[i];
            &&& st.unreachable ==> v == b
            &&& !st.unreachable && a == b ==> v == a
            &&& !st.unreachable && a == Val::Const(0) && (b is This || b is Alloc) ==> v == b
            &&& !st.unreachable && b == Val::Const(0) && (a is This || a is Alloc) ==> v == a
            &&& v == Val::Unk || v == b || (!st.unreachable && v == a)
            &&& !st.unreachable && a != b && v != Val::Unk ==> a == Val::Const(0) || b == Val::Const(0)
        }),
{
}

/// A forward branch carries the registers along: its target is reached with
/// them, or with what they share with an earlier branch there.
pub proof fn branches_carry_registers(
    st: StateV,
    c: CodeV,
    ins: Insn,
    used: Seq<UsedReg>,
    mems: Seq<UsedMem>,
    span: Span,
    i: int,
)
    requires
        falls_to(st, ins.ip),
        table::ordered(st.pending),
        table::get(st.pending, ins.head.target) is None,
        ins.head.target > ins.ip,
        span.start_va <= ins.head.target < span.end_va,
        ins.head.flow == insn::FLOW_CONDITIONAL_BRANCH || ins.head.flow == insn::FLOW_UNCONDITIONAL_BRANCH,
        0 <= i < 16,
    ensures
        ({
            let r = interp::stepped(st, c, ins, used, mems, span);
            &&& table::get(r.pending, ins.head.target) matches Some(p) && p[i] == st.regs[i]
            &&& r.unreachable == (ins.head.flow == insn::FLOW_UNCONDITIONAL_BRANCH)
        }),
{
    let p = table::without(st.pending, ins.ip);
    assert(p == st.pending);
    table::get_after_put(p, ins.head.target, st.regs, ins.head.target);
}

/// Behind a return, a jump or an exception nothing is reached by falling
/// through; behind other instructions it is.
pub proof fn exits_are_exits(st: StateV, c: CodeV, ins: Insn, used: Seq<UsedReg>, mems: Seq<UsedMem>, span: Span)
    requires
        falls_to(st, ins.ip),
    ensures
        interp::stepped(st, c, ins, used, mems, span).unreachable <==> ins.head.flow == 1 || ins.head.flow == 2
            || ins.head.flow == 4 || ins.head.flow == 7 || ins.head.flow == 9,
{
}

/// Testing the argument against one is the mark of a deleting destructor.
pub proof fn argument_bits_are_noticed(
    st: StateV,
    c: CodeV,
    ins: Insn,
    used: Seq<UsedReg>,
    mems: Seq<UsedMem>,
    span: Span,
    d: int,
)
    requires
        falls_to(st, ins.ip),
        ins.head.mnemonic == insn::MNEM_TEST || ins.head.mnemonic == insn::MNEM_AND,
        0 <= d < 16,
        ins.head.op_count == 2,
        ins.op0.kind == insn::KIND_REGISTER,
        insn::gpr_number(ins.op0.reg) == Some(d),
        6 <= ins.op1.kind <= 14,
        ins.op1.imm is Some,
    ensures
        interp::stepped(st, c, ins, used, mems, span).facts.tests_arg_bit == (st.facts.tests_arg_bit || (st.regs[d]
            == Val::Arg1 && ins.op1.imm == Some(1u64))),
{
    touching_keeps_rest(st, c, ins, used, mems, span);
    assert(ins.imm_from(0) == ins.imm_from(1));
}

// ---------------------------------------------------------------------------
// Whole functions.

/// What is recorded stays recorded.
pub open spec fn grows(a: FuncFactsV, b: FuncFactsV) -> bool {
    &&& extends(a.fields, b.fields)
    &&& extends(a.calls, b.calls)
    &&& extends(a.vt_stores, b.vt_stores)
    &&& extends(a.global_stores, b.global_stores)
    &&& extends(a.rip_refs, b.rip_refs)
    &&& extends(a.allocs, b.allocs)
    &&& a.tests_arg_bit ==> b.tests_arg_bit
    &&& a.uses_this ==> b.uses_this
    &&& a.start == b.start
    &&& a.end == b.end
}

/// An instruction adds to the facts and takes nothing away.
pub proof fn steps_grow(st: StateV, c: CodeV, ins: Insn, used: Seq<UsedReg>, mems: Seq<UsedMem>, span: Span)
    ensures
        grows(st.facts, interp::stepped(st, c, ins, used, mems, span).facts),
{
    let f0 = interp::used_this(interp::arrived(interp::counted(st, ins), ins.ip), ins, used, span);
    let f1 = interp::referenced(f0.facts, c.pe, ins, mems, span.site(ins));
    touches_keep(f1, f0.regs, mems, span.site(ins), mems.len() as int);
    touches_keep_this(f1, f0.regs, mems, span.site(ins), mems.len() as int);
}

proof fn touches_keep_this(f: FuncFactsV, regs: Seq<Val>, mems: Seq<UsedMem>, site: u32, n: int)
    ensures
        interp::touched_all(f, regs, mems, site, n).uses_this == f.uses_this,
        interp::touched_all(f, regs, mems, site, n).start == f.start,
        interp::touched_all(f, regs, mems, site, n).end == f.end,
    decreases n,
{
    if n > 0 {
        touches_keep_this(f, regs, mems, site, n - 1);
    }
}

/// Interpreting further adds to the facts and takes nothing away.
pub proof fn runs_grow(c: CodeV, bytes: Seq<u8>, va: u64, span: Span, pos: int, st: StateV)
    ensures
        grows(st.facts, analysis::run(c, bytes, va, span, pos, st).facts),
    decreases bytes.len() - pos,
{
    if 0 <= pos < bytes.len() {
        let rest = bytes.skip(pos);
        let ip = va.wrapping_add(pos as u64);
        let ins = insn::insn(rest, ip);
        if !ins.head.invalid {
            let next = interp::stepped(st, c, ins, insn::regs_of(rest, ip), insn::mems_of(rest, ip), span);
            steps_grow(st, c, ins, insn::regs_of(rest, ip), insn::mems_of(rest, ip), span);
            if ins.head.len != 0 && pos + ins.head.len <= bytes.len() {
                runs_grow(c, bytes, va, span, pos + ins.head.len, next);
            }
        }
    }
}

/// A function that keeps `this` in another register and then touches a member
/// through that register has the access among its facts.
pub proof fn this_is_followed_through_copies(c: CodeV, start: u32, d: int, k: int)
    requires
        0 <= d < 16,
        ({
            let bytes = c.pe.bytes(start, c.extent(start).wrapping_sub(start) as int);
            let va = c.pe.rva_to_va(start);
            let a = insn::insn(bytes, va);
            let rest = bytes.skip(a.head.len as int);
            let b = insn::insn(rest, a.next());
            let mems = insn::mems_of(rest, a.next());
            &&& 0 < a.head.len < bytes.len()
            &&& !a.head.invalid && !b.head.invalid
            &&& goes_on(a) && a.head.mnemonic == insn::MNEM_MOV && into64(a, d) && from64(a, 1)
            &&& 0 <= k < mems.len()
            &&& mems[k].base == insn::REG_RAX + d
            &&& believable(words::signed64(mems[k].disp))
            &&& forall|j: int| 0 <= j < mems.len() ==> moderate((#[trigger] mems[j]).disp)
        }),
    ensures
        ({
            let bytes = c.pe.bytes(start, c.extent(start).wrapping_sub(start) as int);
            let a = insn::insn(bytes, c.pe.rva_to_va(start));
            let m = insn::mems_of(bytes.skip(a.head.len as int), a.next())[k];
            exists|i: int|
                0 <= i < c.analyze(start).fields.len() && (#[trigger] c.analyze(start).fields[i]).off == words::signed64(m.disp)
                    && c.analyze(start).fields[i].size == m.size.bytes as u8 && c.analyze(start).fields[i].ty == VType::of(
                    m.size,
                )
        }),
{
    let end = c.extent(start);
    let bytes = c.pe.bytes(start, end.wrapping_sub(start) as int);
    let va = c.pe.rva_to_va(start);
    let span = c.span(start, end);
    let st = StateV::entry(start, end);
    assert(bytes.skip(0) =~= bytes);
    let a = insn::insn(bytes, va);
    let n = a.head.len as int;
    let rest = bytes.skip(n);
    let ip = a.next();
    let b = insn::insn(rest, ip);
    let mems = insn::mems_of(rest, ip);
    let one = interp::stepped(st, c, a, insn::regs_of(bytes, va), insn::mems_of(bytes, va), span);
    entered_with_this(start, end, d);
    assert(table::get(st.pending, va) is None);
    copies_hold_the_same(st, c, a, insn::regs_of(bytes, va), insn::mems_of(bytes, va), span, d, 1);
    let two = interp::stepped(one, c, b, insn::regs_of(rest, ip), mems, span);
    members_are_recorded(one, c, b, insn::regs_of(rest, ip), mems, span, k, d, 0);
    assert(va.wrapping_add(0) == va);
    assert(ip == va.wrapping_add(n as u64));
    assert(c.final_state(start) == analysis::run(c, bytes, va, span, n, one));
    if b.head.len != 0 && n + b.head.len <= bytes.len() {
        runs_grow(c, bytes, va, span, n + b.head.len, two);
    }
    let x = member_access(mems[k], 0, span.site(b));
    let i = choose|i: int| 0 <= i < two.facts.fields.len() && two.facts.fields[i] == x;
    assert(c.analyze(start).fields[i] == x);
}

// ---------------------------------------------------------------------------
// Use of `this`, allocations and pointers.

/// A function uses `this` if it reads RCX, or hands control on, before RCX is
/// overwritten.
pub proof fn uses_of_this_are_noticed(
    st: StateV,
    c: CodeV,
    ins: Insn,
    used: Seq<UsedReg>,
    mems: Seq<UsedMem>,
    span: Span,
)
    ensures
        ({
            let r = interp::stepped(st, c, ins, used, mems, span);
            let read = exists|k: int|
                0 <= k < used.len() && insn::gpr_number((#[trigger] used[k]).reg) == Some(1int) && (used[k].access == 1
                    || used[k].access == 2 || used[k].access == 5 || used[k].access == 6);
            let written = exists|k: int|
                0 <= k < used.len() && insn::gpr_number((#[trigger] used[k]).reg) == Some(1int) && (used[k].access == 3
                    || used[k].access == 4);
            let leaves = ins.head.flow == 5 || ins.head.flow == 6 || ins.head.flow == 2 || (ins.head.flow == 1 && !(
            span.start_va <= ins.head.target < span.end_va));
            &&& r.rcx_written == (st.rcx_written || written)
            &&& r.facts.uses_this == (st.facts.uses_this || (!st.rcx_written && (read || (!written && leaves))))
        }),
{
    let f0 = interp::used_this(interp::arrived(interp::counted(st, ins), ins.ip), ins, used, span);
    let f1 = interp::referenced(f0.facts, c.pe, ins, mems, span.site(ins));
    touches_keep_this(f1, f0.regs, mems, span.site(ins), mems.len() as int);
    if interp::reads_rcx(used) {
        let k = choose|k: int|
            0 <= k < used.len() && insn::gpr_number((#[trigger] used[k]).reg) == Some(1int) && interp::is_read(used[k].access);
        assert(used[k].access == 1 || used[k].access == 2 || used[k].access == 5 || used[k].access == 6);
    }
    if exists|k: int|
        0 <= k < used.len() && insn::gpr_number((#[trigger] used[k]).reg) == Some(1int) && (used[k].access == 1
            || used[k].access == 2 || used[k].access == 5 || used[k].access == 6) {
        let k = choose|k: int|
            0 <= k < used.len() && insn::gpr_number((#[trigger] used[k]).reg) == Some(1int) && (used[k].access == 1
                || used[k].access == 2 || used[k].access == 5 || used[k].access == 6);
        assert(interp::is_read(used[k].access));
    }
    if interp::writes_rcx(used) {
        let k = choose|k: int|
            0 <= k < used.len() && insn::gpr_number((#[trigger] used[k]).reg) == Some(1int) && interp::is_plain_write(
                used[k].access,
            );
        assert(used[k].access == 3 || used[k].access == 4);
    }
    if exists|k: int|
        0 <= k < used.len() && insn::gpr_number((#[trigger] used[k]).reg) == Some(1int) && (used[k].access == 3
            || used[k].access == 4) {
        let k = choose|k: int|
            0 <= k < used.len() && insn::gpr_number((#[trigger] used[k]).reg) == Some(1int) && (used[k].access == 3
                || used[k].access == 4);
        assert(interp::is_plain_write(used[k].access));
    }
}

/// The first eight instructions of a function are kept, and all are counted.
pub proof fn instructions_are_counted(
    st: StateV,
    c: CodeV,
    ins: Insn,
    used: Seq<UsedReg>,
    mems: Seq<UsedMem>,
    span: Span,
)
    ensures
        ({
            let r = interp::stepped(st, c, ins, used, mems, span);
            &&& st.facts.insns < u32::MAX ==> r.facts.insns == st.facts.insns + 1
            &&& st.small.len() < 8 ==> r.small == st.small.push(ins)
            &&& st.small.len() >= 8 ==> r.small == st.small
        }),
{
    let f0 = interp::used_this(interp::arrived(interp::counted(st, ins), ins.ip), ins, used, span);
    let f1 = interp::referenced(f0.facts, c.pe, ins, mems, span.site(ins));
    touches_keep_count(f1, f0.regs, mems, span.site(ins), mems.len() as int);
}

proof fn touches_keep_count(f: FuncFactsV, regs: Seq<Val>, mems: Seq<UsedMem>, site: u32, n: int)
    ensures
        interp::touched_all(f, regs, mems, site, n).insns == f.insns,
    decreases n,
{
    if n > 0 {
        touches_keep_count(f, regs, mems, site, n - 1);
    }
}

/// An access through an allocation is recorded with the allocation: it reads
/// where the operand does nothing else, and writes otherwise.
pub proof fn allocations_are_touched(f: FuncFactsV, regs: Seq<Val>, m: UsedMem, site: u32, b: int, id: u32, o: i32)
    requires
        regs.len() == 16,
        0 <= b < 16,
        m.base == insn::REG_RAX + b,
        regs[b] == Val::Alloc(id, o),
        moderate(m.disp),
    ensures
        ({
            let off = o + words::signed64(m.disp);
            let g = interp::touched(f, regs, m, site);
            &&& g.fields == f.fields
            &&& believable(off) ==> g.alloc_fields == f.alloc_fields.push(
                (
                    id,
                    FieldAccess {
                        site,
                        off: off as i32,
                        size: m.size.bytes as u8,
                        ty: VType::of(m.size),
                        kind: if m.access == 1 || m.access == 2 {
                            Access::Read
                        } else {
                            Access::Write
                        },
                        indexed: m.index != 0,
                    },
                ),
            )
            &&& !believable(off) ==> g.alloc_fields == f.alloc_fields
        }),
{
    words::sign_of_64(m.disp);
}

/// A member that is followed as a pointer is one: its offset is recorded when
/// memory behind it is touched.
pub proof fn pointers_are_followed(f: FuncFactsV, regs: Seq<Val>, m: UsedMem, site: u32, b: int, o: i32)
    requires
        regs.len() == 16,
        0 <= b < 16,
        m.base == insn::REG_RAX + b,
        regs[b] == Val::FieldPtr(o),
    ensures
        interp::touched(f, regs, m, site).ptr_fields == f.ptr_fields.push(o),
        interp::touched(f, regs, m, site).fields == f.fields,
{
}

/// The type that an access suggests has its size: floats by their kind, other
/// operands by their bytes.
pub proof fn types_have_their_size(s: insn::MemSize)
    ensures
        s.code == 29 ==> VType::of(s) == VType::F32,
        s.code == 30 ==> VType::of(s) == VType::F64,
        s.code == 1 || s.code == 9 ==> VType::of(s) == VType::I8,
        s.code == 2 || s.code == 10 ==> VType::of(s) == VType::I16,
        s.code == 3 || s.code == 11 || s.code == 20 ==> VType::of(s) == VType::I32,
        s.code == 5 || s.code == 12 || s.code == 21 ==> VType::of(s) == VType::I64,
        s.code > 30 && s.bytes == 16 ==> VType::of(s) == VType::V128,
        s.code > 30 && s.bytes == 32 ==> VType::of(s) == VType::V256,
        s.code > 30 && s.bytes == 8 ==> VType::of(s) == VType::I64,
        s.code > 30 && s.bytes == 4 ==> VType::of(s) == if s.packed {
            VType::F32
        } else {
            VType::I32
        },
{
}

// ---------------------------------------------------------------------------
// Functions that do one thing.

/// The memory operand is `[rcx + displacement]`, that is, a member of `this`.
pub open spec fn on_this(i: Insn) -> bool {
    i.mem.base == insn::REG_RCX && i.mem.index == 0
}

/// A function that loads a member into the register of its result and returns
/// is a getter of that member; one that stores its argument there a setter; and
/// one that returns its address a getter by reference.
pub proof fn accessors_are_recognised(c: CodeV, a: Insn, last: Insn)
    requires
        last.head.flow == insn::FLOW_RETURN,
    ensures
        a.head.op_count == 2 && a.op0.kind == 0 && a.op1.kind == 24 && on_this(a) && a.head.mnemonic != insn::MNEM_LEA
            && a.head.mnemonic != insn::MNEM_XOR && a.head.mnemonic != insn::MNEM_MOV && a.op0.reg == insn::REG_XMM0
            ==> analysis::trivial(c, seq![a, last]) == Some(
            analysis::Trivial::Getter { off: a.mem.disp as i32, size: a.mem.size.bytes as u8, ty: VType::of(a.mem.size) },
        ),
        a.head.mnemonic == insn::MNEM_MOV && a.head.op_count == 2 && a.op0.kind == 0 && a.op1.kind == 24 && on_this(a)
            && insn::gpr_number(a.op0.reg) == Some(0int) ==> analysis::trivial(c, seq![a, last]) == Some(
            analysis::Trivial::Getter { off: a.mem.disp as i32, size: a.mem.size.bytes as u8, ty: VType::of(a.mem.size) },
        ),
        a.head.mnemonic == insn::MNEM_LEA && a.op0.kind == 0 && a.op0.reg == insn::REG_RAX && on_this(a) ==> analysis::trivial(
            c,
            seq![a, last],
        ) == Some(analysis::Trivial::RefGetter { off: a.mem.disp as i32 }),
        a.head.mnemonic == insn::MNEM_MOV && a.head.op_count == 2 && a.op0.kind == 24 && on_this(a) && a.op1.kind == 0 && (
        a.op1.reg == insn::REG_DL || a.op1.reg == insn::REG_DX || a.op1.reg == insn::REG_EDX || a.op1.reg == insn::REG_RDX)
            ==> analysis::trivial(c, seq![a, last]) == Some(
            analysis::Trivial::Setter { off: a.mem.disp as i32, size: a.mem.size.bytes as u8, ty: VType::of(a.mem.size) },
        ),
{
    let s = seq![a, last];
    assert(s.last() == last && s[0] == a && s.len() == 2);
    reveal_with_fuel(Insn::imm_from, 4);
}

/// A function that only returns does nothing; one that only jumps is its
/// target; one that moves `this` and jumps adjusts it by that much.
pub proof fn stubs_are_recognised(c: CodeV, a: Insn, last: Insn, t: u32, v: u64)
    requires
        t < c.pe.size_of_image,
        moderate(v),
    ensures
        last.head.flow == insn::FLOW_RETURN ==> analysis::trivial(c, seq![last]) == Some(analysis::Trivial::Nop),
        last.head.flow == insn::FLOW_UNCONDITIONAL_BRANCH && last.head.target == c.pe.image_base + t ==> analysis::trivial(
            c,
            seq![last],
        ) == Some(analysis::Trivial::Jump(c.resolve_direct(t))),
        last.head.flow == insn::FLOW_UNCONDITIONAL_BRANCH && last.head.target == c.pe.image_base + t && a.head.op_count == 2
            && a.op0.kind == 0 && a.op0.reg == insn::REG_RCX && 6 <= a.op1.kind <= 14 && a.op1.imm == Some(v) && (
        a.head.mnemonic == insn::MNEM_ADD || a.head.mnemonic == insn::MNEM_SUB) ==> ({
            let n = if a.head.mnemonic == insn::MNEM_ADD {
                words::signed64(v)
            } else {
                -words::signed64(v)
            };
            i32::MIN <= n <= i32::MAX ==> analysis::trivial(c, seq![a, last]) == Some(
                analysis::Trivial::AdjustThunk { delta: n as i32, target: t },
            )
        }),
{
    words::sign_of_64(v);
    let s = seq![a, last];
    assert(s.last() == last && s[0] == a && s.len() == 2);
    assert(seq![last].last() == last);
    if a.head.op_count == 2 && a.op0.kind == 0 && 6 <= a.op1.kind <= 14 {
        assert(a.imm_from(0) == a.imm_from(1));
    }
}

} // verus!
