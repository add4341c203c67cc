//! Every allocation that the facts about a function speak of is one that the
//! function makes.

use vstd::prelude::*;

use crate::analysis;
use crate::analysis::{CodeV, FuncFactsV, Val};
use crate::insn;
use crate::insn::{Insn, UsedMem, UsedReg};
use crate::interp;
use crate::interp::{Span, StateV};
use crate::pe::PeV;
use crate::table;

verus! {

/// A value that speaks of none but the first `n` allocations.
pub open spec fn known(v: Val, n: nat) -> bool {
    v matches Val::Alloc(id, _) ==> id < n
}

pub open spec fn all_known(regs: Seq<Val>, n: nat) -> bool {
    regs.len() == 16 && forall|i: int| 0 <= i < regs.len() ==> known(#[trigger] regs[i], n)
}

/// Facts that speak of none but the first `n` allocations.
pub open spec fn facts_known(f: FuncFactsV, n: nat) -> bool {
    &&& forall|i: int| 0 <= i < f.vt_stores.len() ==> known((#[trigger] f.vt_stores[i]).dst, n)
    &&& forall|i: int| 0 <= i < f.global_stores.len() ==> known((#[trigger] f.global_stores[i]).val, n)
    &&& forall|i: int| 0 <= i < f.calls.len() ==> known((#[trigger] f.calls[i]).rcx, n) && known(f.calls[i].rdx, n)
    &&& forall|i: int| 0 <= i < f.alloc_fields.len() ==> (#[trigger] f.alloc_fields[i]).0 < n
}

/// Facts about a function that speak of none but its allocations.
pub open spec fn sound(f: FuncFactsV) -> bool {
    facts_known(f, f.allocs.len())
}

spec fn paths_known(pending: Seq<(u64, Seq<Val>)>, n: nat) -> bool {
    forall|i: int| 0 <= i < pending.len() ==> all_known((#[trigger] pending[i]).1, n)
}

spec fn state_known(st: StateV) -> bool {
    let n = st.facts.allocs.len();
    all_known(st.regs, n) && paths_known(st.pending, n) && sound(st.facts)
}

proof fn merging_known(a: Seq<Val>, b: Seq<Val>, n: nat)
    requires
        all_known(a, n),
        all_known(b, n),
    ensures
        all_known(analysis::merged_regs(a, b), n),
        all_known(analysis::clobbered(a), n),
{
    let m = analysis::merged_regs(a, b);
    assert forall|i: int| 0 <= i < m.len() implies known(#[trigger] m[i], n) by {
        assert(known(a[i], n) && known(b[i], n));
    }
    let c = analysis::clobbered(a);
    assert forall|i: int| 0 <= i < c.len() implies known(#[trigger] c[i], n) by {
        assert(known(a[i], n));
    }
}

proof fn path_known(pending: Seq<(u64, Seq<Val>)>, ip: u64, n: nat)
    requires
        paths_known(pending, n),
    ensures
        table::get(pending, ip) matches Some(p) ==> all_known(p, n),
        paths_known(table::without(pending, ip), n),
{
    table::get_is_row(pending, ip);
    if let Some(p) = table::get(pending, ip) {
        let j = choose|j: int| 0 <= j < pending.len() && pending[j] == (ip, p);
        assert(all_known(pending[j].1, n));
    }
    let t = table::without(pending, ip);
    table::rows_after_without(pending, ip);
    assert forall|i: int| 0 <= i < t.len() implies all_known((#[trigger] t[i]).1, n) by {
        let j = choose|j: int| 0 <= j < pending.len() && pending[j] == t[i];
        assert(all_known(pending[j].1, n));
    }
}

proof fn path_put_known(pending: Seq<(u64, Seq<Val>)>, ip: u64, p: Seq<Val>, n: nat)
    requires
        paths_known(pending, n),
        all_known(p, n),
    ensures
        paths_known(table::put(pending, ip, p), n),
{
    let t = table::put(pending, ip, p);
    table::rows_after_put(pending, ip, p);
    assert forall|i: int| 0 <= i < t.len() implies all_known((#[trigger] t[i]).1, n) by {
        if t[i] != (ip, p) {
            let j = choose|j: int| 0 <= j < pending.len() && pending[j] == t[i];
            assert(all_known(pending[j].1, n));
        }
    }
}

proof fn arrival_known(st: StateV, ip: u64)
    requires
        state_known(st),
    ensures
        state_known(interp::arrived(st, ip)),
{
    let n = st.facts.allocs.len();
    path_known(st.pending, ip, n);
    merging_known(st.regs, st.regs, n);
    if let Some(p) = table::get(st.pending, ip) {
        merging_known(st.regs, p, n);
    }
}

proof fn touch_known(f: FuncFactsV, regs: Seq<Val>, mems: Seq<UsedMem>, site: u32, k: int)
    requires
        sound(f),
        all_known(regs, f.allocs.len()),
    ensures
        sound(interp::touched_all(f, regs, mems, site, k)),
        interp::touched_all(f, regs, mems, site, k).allocs == f.allocs,
    decreases k,
{
    if k > 0 {
        touch_known(f, regs, mems, site, k - 1);
        if let Some(b) = insn::gpr_number(mems[k - 1].base) {
            assert(known(regs[b], f.allocs.len()));
        }
    }
}

proof fn store_known(f: FuncFactsV, c: CodeV, regs: Seq<Val>, ins: Insn, site: u32)
    requires
        sound(f),
        all_known(regs, f.allocs.len()),
    ensures
        sound(interp::stores(f, c, regs, ins, site)),
        interp::stores(f, c, regs, ins, site).allocs == f.allocs,
{
    if let Some(s) = insn::gpr_number(ins.op1.reg) {
        assert(known(regs[s], f.allocs.len()));
    }
    if let Some(b) = insn::gpr_number(ins.mem.base) {
        assert(known(regs[b], f.allocs.len()));
    }
    assert(known(interp::store_dest(regs, ins), f.allocs.len()));
}

proof fn observation_known(f: FuncFactsV, c: CodeV, regs: Seq<Val>, ins: Insn, mems: Seq<UsedMem>, span: Span)
    requires
        sound(f),
        all_known(regs, f.allocs.len()),
    ensures
        sound(interp::observed(f, c, regs, ins, mems, span)),
        interp::observed(f, c, regs, ins, mems, span).allocs == f.allocs,
{
    let site = span.site(ins);
    let a = interp::referenced(f, c.pe, ins, mems, site);
    touch_known(a, regs, mems, site, mems.len() as int);
    let b = interp::touched_all(a, regs, mems, site, mems.len() as int);
    let d = interp::operated(b, regs, ins, site);
    store_known(d, c, regs, ins, site);
    assert(known(regs[1], f.allocs.len()) && known(regs[2], f.allocs.len()));
}

proof fn value_known(pe: PeV, regs: Seq<Val>, ins: Insn, n: nat)
    requires
        all_known(regs, n),
    ensures
        interp::new_value(pe, regs, ins) matches Some(v) ==> known(v, n),
{
    if let Some(s) = insn::gpr_number(ins.op1.reg) {
        assert(known(regs[s], n));
    }
    if let Some(b) = insn::gpr_number(ins.mem.base) {
        assert(known(regs[b], n));
    }
    if let Some(d) = interp::dest(ins) {
        assert(known(regs[d], n));
    }
}

proof fn more_known(f: FuncFactsV, n: nat, m: nat)
    requires
        facts_known(f, n),
        n <= m,
    ensures
        facts_known(f, m),
{
}

proof fn execution_known(st: StateV, c: CodeV, ins: Insn, used: Seq<UsedReg>, span: Span)
    requires
        state_known(st),
        st.facts.allocs.len() < u32::MAX,
    ensures
        state_known(interp::executed(st, c, ins, used, span)),
        interp::executed(st, c, ins, used, span).facts.allocs.len() <= st.facts.allocs.len() + 1,
{
    let n = st.facts.allocs.len();
    let value = interp::new_value(c.pe, st.regs, ins);
    value_known(c.pe, st.regs, ins, n);
    let regs = interp::written(st.regs, used, interp::dest(ins), value);
    assert forall|i: int| 0 <= i < regs.len() implies known(#[trigger] regs[i], n) by {
        assert(known(st.regs[i], n));
    }
    let t = ins.head.target;
    path_known(st.pending, t, n);
    if let Some(e) = table::get(st.pending, t) {
        merging_known(e, st.regs, n);
        path_put_known(st.pending, t, analysis::merged_regs(e, st.regs), n);
    }
    path_put_known(st.pending, t, st.regs, n);
    let pending = interp::branched(st.pending, st.regs, ins, span);
    assert(paths_known(pending, n));
    merging_known(regs, regs, n);
    let call = interp::call_of(c, st.regs, ins, span);
    let mid = StateV { regs, pending, ..st };
    let site = span.site(ins);
    let end = interp::after_call(mid, call, site);
    if let Some(k) = call {
        assert(known(regs[1], n));
        let m = end.facts.allocs.len();
        assert(n <= m <= n + 1);
        assert(all_known(end.regs, m)) by {
            let base = analysis::clobbered(regs);
            assert forall|i: int| 0 <= i < end.regs.len() implies known(#[trigger] end.regs[i], m) by {
                assert(known(base[i], n));
            }
        }
        assert(paths_known(end.pending, m)) by {
            assert forall|i: int| 0 <= i < pending.len() implies all_known((#[trigger] pending[i]).1, m) by {
                let p = pending[i].1;
                assert(all_known(p, n));
                assert forall|j: int| 0 <= j < p.len() implies known(#[trigger] p[j], m) by {
                    assert(known(p[j], n));
                }
            }
        }
        more_known(st.facts, n, m);
    }
}

proof fn step_known(st: StateV, c: CodeV, ins: Insn, used: Seq<UsedReg>, mems: Seq<UsedMem>, span: Span)
    requires
        state_known(st),
        st.facts.allocs.len() < u32::MAX,
    ensures
        state_known(interp::stepped(st, c, ins, used, mems, span)),
        interp::stepped(st, c, ins, used, mems, span).facts.allocs.len() <= st.facts.allocs.len() + 1,
{
    let a = interp::counted(st, ins);
    arrival_known(a, ins.ip);
    let b = interp::used_this(interp::arrived(a, ins.ip), ins, used, span);
    observation_known(b.facts, c, b.regs, ins, mems, span);
    let d = StateV { facts: interp::observed(b.facts, c, b.regs, ins, mems, span), ..b };
    execution_known(d, c, ins, used, span);
}

proof fn run_known(c: CodeV, bytes: Seq<u8>, va: u64, span: Span, pos: int, st: StateV)
    requires
        bytes.len() <= u32::MAX,
        0 <= pos,
        state_known(st),
        st.facts.allocs.len() <= pos,
    ensures
        sound(analysis::run(c, bytes, va, span, pos, st).facts),
    decreases bytes.len() - pos,
{
    if pos < bytes.len() {
        let rest = bytes.skip(pos);
        let ip = va.wrapping_add(pos as u64);
        let ins = insn::insn(rest, ip);
        if !ins.head.invalid {
            let used = insn::regs_of(rest, ip);
            let mems = insn::mems_of(rest, ip);
            step_known(st, c, ins, used, mems, span);
            let next = interp::stepped(st, c, ins, used, mems, span);
            if ins.head.len != 0 && pos + ins.head.len <= bytes.len() {
                run_known(c, bytes, va, span, pos + ins.head.len, next);
            }
        }
    }
}

/// The facts about a function speak of none but the allocations it makes.
pub proof fn allocations_are_known(c: CodeV, start: u32)
    requires
        c.pe.image.len() <= u32::MAX,
    ensures
        sound(c.analyze(start)),
{
    let end = c.extent(start);
    let bytes = c.pe.bytes(start, end.wrapping_sub(start) as int);
    let st = StateV::entry(start, end);
    assert(state_known(st));
    run_known(c, bytes, c.pe.rva_to_va(start), c.span(start, end), 0, st);
}

/// Functions whose facts speak of none but their allocations.
pub open spec fn all_sound(fs: Seq<(u32, FuncFactsV)>) -> bool {
    forall|i: int| 0 <= i < fs.len() ==> sound((#[trigger] fs[i]).1)
}

proof fn function_put_sound(fs: Seq<(u32, FuncFactsV)>, k: u32, f: FuncFactsV)
    requires
        all_sound(fs),
        sound(f),
    ensures
        all_sound(table::put(fs, k, f)),
{
    let t = table::put(fs, k, f);
    table::rows_after_put(fs, k, f);
    assert forall|i: int| 0 <= i < t.len() implies sound((#[trigger] t[i]).1) by {
        if t[i] != (k, f) {
            let j = choose|j: int| 0 <= j < fs.len() && fs[j] == t[i];
            assert(sound(fs[j].1));
        }
    }
}

proof fn round_sound(c: CodeV, funcs: Seq<(u32, FuncFactsV)>, todo: Seq<u32>, n: int)
    requires
        c.pe.image.len() <= u32::MAX,
        all_sound(funcs),
    ensures
        all_sound(analysis::round(c, funcs, todo, n).0),
    decreases n,
{
    if n > 0 {
        round_sound(c, funcs, todo, n - 1);
        allocations_are_known(c, todo[n - 1]);
        let f = c.analyze(todo[n - 1]);
        function_put_sound(analysis::round(c, funcs, todo, n - 1).0, f.start, f);
    }
}

proof fn rounds_sound(c: CodeV, funcs: Seq<(u32, FuncFactsV)>, todo: Seq<u32>, n: nat)
    requires
        c.pe.image.len() <= u32::MAX,
        all_sound(funcs),
    ensures
        all_sound(analysis::rounds(c, funcs, todo, n).0),
    decreases n,
{
    if n > 0 && todo.len() > 0 {
        round_sound(c, funcs, todo, todo.len() as int);
        let (fs, found) = analysis::round(c, funcs, todo, todo.len() as int);
        let next = analysis::unseen(fs, found, found.len() as int);
        let starts = analysis::with_all(c.starts, next, next.len() as int);
        rounds_sound(CodeV { starts, ..c }, fs, next, (n - 1) as nat);
    }
}

/// In an analysed module, every allocation spoken of was made.
pub proof fn module_is_sound(pe: PeV, vtables: Seq<(u32, ())>, extra: Seq<u32>)
    requires
        pe.image.len() <= u32::MAX,
    ensures
        all_sound(analysis::module_code(pe, vtables, extra).funcs),
{
    let starts = analysis::known_starts(pe, extra);
    let fs = pe.runtime_functions;
    let c = CodeV { pe, vtables, starts, pdata_end: analysis::table_ends(fs, fs.len() as int) };
    rounds_sound(c, Seq::empty(), table::keys(starts), 3);
}

} // verus!
