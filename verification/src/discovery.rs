//! What holds of the functions that are found in a module, and of the code that
//! signatures are made from.

use vstd::prelude::*;

use crate::analysis;
use crate::analysis::{CallSite, CodeV, FieldAccess, FuncFactsV, RipRef, Target};
use crate::generate;
use crate::generate::{FieldSites, GlobalSites, WantV};
use crate::insn;
use crate::insn::{Insn, Offsets};
use crate::model::{ModuleV, OwnerV};
use crate::pe::{PeV, RuntimeFunction};
use crate::sigs::SigV;
use crate::table;
use crate::world::WorldV;

verus! {

// ---------------------------------------------------------------------------
// Starts.

proof fn put_holds<A: table::Ordered, W>(s: Seq<(A, W)>, k: A, w: W, x: A)
    requires
        table::ordered(s),
    ensures
        table::ordered(table::put(s, k, w)),
        table::holds(table::put(s, k, w), x) <==> table::holds(s, x) || x == k,
{
    table::put_ordered(s, k, w);
    table::get_after_put(s, k, w, x);
    if x != k {
        assert(table::get(table::put(s, k, w), x) == table::get(s, x));
    }
}

proof fn table_starts_are(fs: Seq<RuntimeFunction>, n: int, x: u32)
    requires
        0 <= n <= fs.len(),
    ensures
        table::ordered(analysis::table_starts(fs, n)),
        table::holds(analysis::table_starts(fs, n), x) <==> exists|i: int|
            0 <= i < n && (#[trigger] fs[i]).begin == x && !fs[i].chained,
    decreases n,
{
    if n > 0 {
        table_starts_are(fs, n - 1, x);
        put_holds(analysis::table_starts(fs, n - 1), fs[n - 1].begin, (), x);
    } else {
        assert(analysis::table_starts(fs, n) =~= Seq::empty());
    }
}

proof fn export_starts_are(pe: PeV, s: Seq<(u32, ())>, n: int, x: u32)
    requires
        table::ordered(s),
        0 <= n <= pe.exports.len(),
    ensures
        table::ordered(analysis::export_starts(pe, s, n)),
        table::holds(analysis::export_starts(pe, s, n), x) <==> table::holds(s, x) || exists|i: int|
            0 <= i < n && (#[trigger] pe.exports[i]).rva == x && pe.exports[i].forwarder is None && pe.is_exec(x),
    decreases n,
{
    if n > 0 {
        export_starts_are(pe, s, n - 1, x);
        put_holds(analysis::export_starts(pe, s, n - 1), pe.exports[n - 1].rva, (), x);
    }
}

proof fn code_is_with(pe: PeV, s: Seq<(u32, ())>, rvas: Seq<u32>, n: int, x: u32)
    requires
        table::ordered(s),
        0 <= n <= rvas.len(),
    ensures
        table::ordered(analysis::with_code(pe, s, rvas, n)),
        table::holds(analysis::with_code(pe, s, rvas, n), x) <==> table::holds(s, x) || (pe.is_exec(x) && exists|i: int|
            0 <= i < n && #[trigger] rvas[i] == x),
    decreases n,
{
    if n > 0 {
        code_is_with(pe, s, rvas, n - 1, x);
        put_holds(analysis::with_code(pe, s, rvas, n - 1), rvas[n - 1], (), x);
    }
}

/// An address starts a function: by the function table, where it is no fragment
/// of another function, as an export of code, as the entry point, or as one of
/// the addresses that are given and are code.
pub open spec fn is_start(pe: PeV, extra: Seq<u32>, x: u32) -> bool {
    ||| exists|i: int|
        0 <= i < pe.runtime_functions.len() && (#[trigger] pe.runtime_functions[i]).begin == x && !pe.runtime_functions[i].chained
    ||| exists|i: int|
        0 <= i < pe.exports.len() && (#[trigger] pe.exports[i]).rva == x && pe.exports[i].forwarder is None && pe.is_exec(x)
    ||| pe.is_exec(x) && extra.contains(x)
    ||| x == pe.entry && x != 0
}

/// The functions that are looked at first are those that the module gives away,
/// and all of them.
pub proof fn starts_are_given(pe: PeV, extra: Seq<u32>, x: u32)
    ensures
        table::ordered(analysis::known_starts(pe, extra)),
        table::holds(analysis::known_starts(pe, extra), x) <==> is_start(pe, extra, x),
{
    let fs = pe.runtime_functions;
    let a = analysis::table_starts(fs, fs.len() as int);
    table_starts_are(fs, fs.len() as int, x);
    let b = analysis::export_starts(pe, a, pe.exports.len() as int);
    export_starts_are(pe, a, pe.exports.len() as int, x);
    let c = analysis::with_code(pe, b, extra, extra.len() as int);
    code_is_with(pe, b, extra, extra.len() as int, x);
    put_holds(c, pe.entry, (), x);
    if exists|i: int| 0 <= i < extra.len() && #[trigger] extra[i] == x {
        assert(extra.contains(x));
    }
}

/// The function table says where a function ends, where its entry is the only
/// one for the start that is no fragment.
pub proof fn ends_are_given(fs: Seq<RuntimeFunction>, n: int, i: int)
    requires
        0 <= i < n <= fs.len(),
        !fs[i].chained,
        forall|j: int| i < j < n && !(#[trigger] fs[j]).chained ==> fs[j].begin != fs[i].begin,
    ensures
        table::ordered(analysis::table_ends(fs, n)),
        table::get(analysis::table_ends(fs, n), fs[i].begin) == Some(fs[i].end),
    decreases n,
{
    let s = analysis::table_ends(fs, n - 1);
    if i < n - 1 {
        ends_are_given(fs, n - 1, i);
        if !fs[n - 1].chained {
            assert(fs[n - 1].begin != fs[i].begin);
            table::put_ordered(s, fs[n - 1].begin, fs[n - 1].end);
            table::get_after_put(s, fs[n - 1].begin, fs[n - 1].end, fs[i].begin);
        }
    } else {
        ends_ordered(fs, n - 1);
        table::put_ordered(s, fs[i].begin, fs[i].end);
        table::get_after_put(s, fs[i].begin, fs[i].end, fs[i].begin);
    }
}

proof fn ends_ordered(fs: Seq<RuntimeFunction>, n: int)
    ensures
        table::ordered(analysis::table_ends(fs, n)),
    decreases n,
{
    if n > 0 {
        ends_ordered(fs, n - 1);
        table::put_ordered(analysis::table_ends(fs, n - 1), fs[n - 1].begin, fs[n - 1].end);
    } else {
        assert(analysis::table_ends(fs, n) =~= Seq::empty());
    }
}

// ---------------------------------------------------------------------------
// Rounds.

proof fn calls_are_found(pe: PeV, starts: Seq<(u32, ())>, found: Seq<(u32, ())>, calls: Seq<CallSite>, n: int, x: u32)
    requires
        table::ordered(found),
        0 <= n <= calls.len(),
    ensures
        table::ordered(analysis::called_code(pe, starts, found, calls, n)),
        table::holds(analysis::called_code(pe, starts, found, calls, n), x) <==> table::holds(found, x) || (!table::holds(
            starts,
            x,
        ) && pe.is_exec(x) && exists|i: int| 0 <= i < n && (#[trigger] calls[i]).target == Target::Direct(x)),
    decreases n,
{
    if n > 0 {
        calls_are_found(pe, starts, found, calls, n - 1, x);
        if let Target::Direct(t) = calls[n - 1].target {
            put_holds(analysis::called_code(pe, starts, found, calls, n - 1), t, (), x);
        }
    }
}

/// The facts about a function start where the function does.
proof fn facts_start(c: CodeV, x: u32)
    ensures
        c.analyze(x).start == x,
{
    let end = c.extent(x);
    let bytes = c.pe.bytes(x, end.wrapping_sub(x) as int);
    crate::tracking::runs_grow(
        c,
        bytes,
        c.pe.rva_to_va(x),
        c.span(x, end),
        0,
        crate::interp::StateV::entry(x, end),
    );
}

proof fn round_analyses(c: CodeV, funcs: Seq<(u32, FuncFactsV)>, todo: Seq<u32>, n: int, x: u32)
    requires
        table::ordered(funcs),
        0 <= n <= todo.len(),
    ensures
        table::ordered(analysis::round(c, funcs, todo, n).0),
        table::ordered(analysis::round(c, funcs, todo, n).1),
        (exists|i: int| 0 <= i < n && #[trigger] todo[i] == x) ==> table::get(analysis::round(c, funcs, todo, n).0, x) == Some(
            c.analyze(x),
        ),
        !(exists|i: int| 0 <= i < n && #[trigger] todo[i] == x) ==> table::get(analysis::round(c, funcs, todo, n).0, x)
            == table::get(funcs, x),
        forall|i: int, k: int|
            0 <= i < n && 0 <= k < c.analyze(todo[i]).calls.len() && (#[trigger] c.analyze(todo[i]).calls[k]).target
                == Target::Direct(x) && !table::holds(c.starts, x) && c.pe.is_exec(x) ==> table::holds(
                analysis::round(c, funcs, todo, n).1,
                x,
            ),
    decreases n,
{
    if n > 0 {
        round_analyses(c, funcs, todo, n - 1, x);
        let (fs, found) = analysis::round(c, funcs, todo, n - 1);
        let t = todo[n - 1];
        let f = c.analyze(t);
        facts_start(c, t);
        table::put_ordered(fs, f.start, f);
        table::get_after_put(fs, f.start, f, x);
        calls_are_found(c.pe, c.starts, found, f.calls, f.calls.len() as int, x);
        if exists|i: int| 0 <= i < n && #[trigger] todo[i] == x {
            let i = choose|i: int| 0 <= i < n && #[trigger] todo[i] == x;
            if t != x {
                assert(i < n - 1 && todo[i] == x);
            }
        }
        if exists|i: int| 0 <= i < n - 1 && #[trigger] todo[i] == x {
            let i = choose|i: int| 0 <= i < n - 1 && #[trigger] todo[i] == x;
            assert(0 <= i < n && todo[i] == x);
        }
        if t == x {
            assert(0 <= n - 1 < n && todo[n - 1] == x);
        }
    } else {
        assert(analysis::round(c, funcs, todo, n).1 =~= Seq::empty());
    }
}

proof fn unseen_are_new(funcs: Seq<(u32, FuncFactsV)>, found: Seq<(u32, ())>, n: int)
    requires
        0 <= n <= found.len(),
    ensures
        forall|i: int|
            0 <= i < analysis::unseen(funcs, found, n).len() ==> !table::holds(
                funcs,
                #[trigger] analysis::unseen(funcs, found, n)[i],
            ),
        forall|k: int|
            0 <= k < n && !table::holds(funcs, (#[trigger] found[k]).0) ==> analysis::unseen(funcs, found, n).contains(
                found[k].0,
            ),
    decreases n,
{
    if n > 0 {
        unseen_are_new(funcs, found, n - 1);
        let b = analysis::unseen(funcs, found, n - 1);
        let s = analysis::unseen(funcs, found, n);
        assert forall|k: int| 0 <= k < n && !table::holds(funcs, (#[trigger] found[k]).0) implies s.contains(found[k].0) by {
            if k < n - 1 {
                let i = choose|i: int| 0 <= i < b.len() && b[i] == found[k].0;
                assert(s[i] == found[k].0);
            } else {
                assert(s[b.len() as int] == found[k].0);
            }
        }
    }
}

proof fn rounds_keep(c: CodeV, funcs: Seq<(u32, FuncFactsV)>, todo: Seq<u32>, n: nat, x: u32)
    requires
        table::ordered(funcs),
        forall|i: int| 0 <= i < todo.len() ==> !table::holds(funcs, #[trigger] todo[i]),
        table::holds(funcs, x),
    ensures
        table::get(analysis::rounds(c, funcs, todo, n).0, x) == table::get(funcs, x),
    decreases n,
{
    if n > 0 && todo.len() > 0 {
        round_analyses(c, funcs, todo, todo.len() as int, x);
        let (fs, found) = analysis::round(c, funcs, todo, todo.len() as int);
        let next = analysis::unseen(fs, found, found.len() as int);
        unseen_are_new(fs, found, found.len() as int);
        let starts = analysis::with_all(c.starts, next, next.len() as int);
        if exists|i: int| 0 <= i < todo.len() && #[trigger] todo[i] == x {
            let i = choose|i: int| 0 <= i < todo.len() && #[trigger] todo[i] == x;
            assert(false);
        }
        assert(table::get(fs, x) == table::get(funcs, x));
        rounds_keep(CodeV { starts, ..c }, fs, next, (n - 1) as nat, x);
    }
}

/// Every function that a module gives away is analysed, and so is every
/// function that one of those calls: a leaf without an entry in the function
/// table is found by its calls.
pub proof fn functions_are_found(pe: PeV, vtables: Seq<(u32, ())>, extra: Seq<u32>, x: u32, y: u32, k: int)
    ensures
        ({
            let fs = pe.runtime_functions;
            let c = CodeV {
                pe,
                vtables,
                starts: analysis::known_starts(pe, extra),
                pdata_end: analysis::table_ends(fs, fs.len() as int),
            };
            let funcs = analysis::module_code(pe, vtables, extra).funcs;
            &&& is_start(pe, extra, x) ==> table::get(funcs, x) == Some(c.analyze(x))
            &&& is_start(pe, extra, x) && 0 <= k < c.analyze(x).calls.len() && c.analyze(x).calls[k].target == Target::Direct(y)
                && pe.is_exec(y) ==> table::holds(funcs, y)
        }),
{
    let fs = pe.runtime_functions;
    let starts = analysis::known_starts(pe, extra);
    let c = CodeV { pe, vtables, starts, pdata_end: analysis::table_ends(fs, fs.len() as int) };
    let todo = table::keys(starts);
    starts_are_given(pe, extra, x);
    starts_are_given(pe, extra, y);
    let none = Seq::<(u32, FuncFactsV)>::empty();
    if is_start(pe, extra, x) {
        table::rank_bounds(starts, x, 0);
        let i = table::rank(starts, x);
        assert(todo[i] == x);
        let n = todo.len() as int;
        round_analyses(c, none, todo, n, x);
        round_analyses(c, none, todo, n, y);
        let (one, found) = analysis::round(c, none, todo, n);
        let next = analysis::unseen(one, found, found.len() as int);
        unseen_are_new(one, found, found.len() as int);
        let c2 = CodeV { starts: analysis::with_all(starts, next, next.len() as int), ..c };
        assert(analysis::rounds(c, none, todo, 3) == analysis::rounds(c2, one, next, 2));
        rounds_keep(c2, one, next, 2, x);
        if 0 <= k < c.analyze(x).calls.len() && c.analyze(x).calls[k].target == Target::Direct(y) && pe.is_exec(y) {
            if table::holds(starts, y) {
                table::rank_bounds(starts, y, 0);
                assert(todo[table::rank(starts, y)] == y);
                rounds_keep(c2, one, next, 2, y);
            } else {
                assert(c.analyze(todo[i]).calls[k].target == Target::Direct(y));
                assert(table::holds(found, y));
                if table::holds(one, y) {
                    rounds_keep(c2, one, next, 2, y);
                } else {
                    table::rank_bounds(found, y, 0);
                    let q = table::rank(found, y);
                    assert(found[q].0 == y);
                    assert(next.contains(y));
                    let j = choose|j: int| 0 <= j < next.len() && next[j] == y;
                    round_analyses(c2, one, next, next.len() as int, y);
                    let (two, more) = analysis::round(c2, one, next, next.len() as int);
                    let last = analysis::unseen(two, more, more.len() as int);
                    unseen_are_new(two, more, more.len() as int);
                    let c3 = CodeV { starts: analysis::with_all(c2.starts, last, last.len() as int), ..c2 };
                    assert(next[j] == y);
                    assert(table::get(two, y) is Some);
                    assert(analysis::rounds(c2, one, next, 2) == analysis::rounds(c3, two, last, 1));
                    rounds_keep(c3, two, last, 1, y);
                }
            }
        }
    }
}

// ---------------------------------------------------------------------------
// What a pattern fixes.

/// Of an instruction a pattern leaves open what is likely to change between
/// builds: displacements relative to the instruction pointer, targets of
/// branches and large numbers; every other byte is that of the code.
pub proof fn patterns_leave_addresses_open(raw: Seq<u8>, ins: Insn, co: Offsets, keep: bool, k: int)
    requires
        0 <= k < raw.len(),
    ensures
        ({
            let p = generate::masked_raw(raw, ins, co, keep);
            let disp = co.disp_size != 0 && co.disp_off <= k < co.disp_off + co.disp_size;
            let imm = co.imm_size != 0 && co.imm_off <= k < co.imm_off + co.imm_size;
            let imm2 = co.imm2_size != 0 && co.imm2_off <= k < co.imm2_off + co.imm2_size;
            let branch = ins.head.flow == 5 || ins.head.flow == 1 || ins.head.flow == 3;
            let tail = ins.head.len >= 5 && ins.head.len - 4 <= k < ins.head.len;
            &&& p.len() == raw.len()
            &&& p[k] is None || p[k] == Some(raw[k])
            &&& disp && ins.mem.ip_rel ==> p[k] is None
            &&& disp && co.disp_size >= 4 && !keep ==> p[k] is None
            &&& imm && co.imm_size >= 4 ==> p[k] is None
            &&& imm2 ==> p[k] is None
            &&& branch && tail && co.imm_size == 0 && !ins.mem.ip_rel && ins.op0.kind == 3 ==> p[k] is None
            &&& !disp && !imm && !imm2 && !(branch && tail) ==> p[k] == Some(raw[k])
            &&& disp && !imm && !imm2 && !(branch && tail) && !ins.mem.ip_rel && (co.disp_size < 4 || keep) ==> p[k] == Some(raw[k])
            &&& imm && !disp && !imm2 && !(branch && tail) && !branch && co.imm_size < 4 && ins.imm() is Some && ins.imm().unwrap()
                <= 0xff ==> p[k] == Some(raw[k])
        }),
{
}

proof fn access_sites_are(
    w: WorldV,
    m: ModuleV,
    wanted: Seq<((Seq<char>, i32), ())>,
    out: FieldSites,
    o: OwnerV,
    fields: Seq<FieldAccess>,
    n: int,
)
    requires
        0 <= n <= fields.len(),
        sites_lead(m, out),
    ensures
        sites_lead(m, generate::access_sites(w, m, wanted, out, o, fields, n)),
    decreases n,
{
    if n > 0 {
        access_sites_are(w, m, wanted, out, o, fields, n - 1);
        let s = generate::access_sites(w, m, wanted, out, o, fields, n - 1);
        let a = fields[n - 1];
        let key = w.resolve_field(o.class, a.off.wrapping_add(o.adj));
        if let Some(disp) = generate::disp_at(m.pe, a.site) {
            let x = (a.site, (key.1 as i64).wrapping_sub(disp));
            let list = table::list_at(s, key);
            let longer = table::put(list, x, ());
            let t = table::put(s, key, longer);
            table::put_ordered(s, key, longer);
            assert forall|k: (Seq<char>, i32), i: int|
                0 <= i < table::list_at(t, k).len() implies leads_to(m, k, (#[trigger] table::list_at(t, k)[i]).0) by {
                table::get_after_put(s, key, longer, k);
                if k == key {
                    table::rows_after_put(list, x, ());
                    let row = table::list_at(t, k)[i];
                    if list.contains(row) {
                        let j = choose|j: int| 0 <= j < list.len() && list[j] == row;
                        assert(leads_to(m, k, table::list_at(s, k)[j].0));
                    } else {
                        assert(row == (x, ()));
                    }
                } else {
                    assert(leads_to(m, k, table::list_at(s, k)[i].0));
                }
            }
        }
    }
}

/// A site and a distance lead to a field: the displacement there and the
/// distance add up to its offset.
pub open spec fn leads_to(m: ModuleV, key: (Seq<char>, i32), x: (u32, i64)) -> bool {
    generate::disp_at(m.pe, x.0) matches Some(d) && d.wrapping_add(x.1) == key.1
}

/// Every site that is listed for a field leads to it.
pub open spec fn sites_lead(m: ModuleV, t: FieldSites) -> bool {
    table::ordered(t) && forall|k: (Seq<char>, i32), i: int|
        0 <= i < table::list_at(t, k).len() ==> leads_to(m, k, (#[trigger] table::list_at(t, k)[i]).0)
}

/// The code that a field signature is made from accesses that field: the
/// displacement in it, and the distance that the signature adds, give the
/// offset of the field in the class that declares it.
pub proof fn field_sites_lead_to_the_field(w: WorldV, m: ModuleV, wanted: Seq<((Seq<char>, i32), ())>, n: int)
    requires
        0 <= n <= m.owner.len(),
    ensures
        sites_lead(m, generate::field_sites(w, m, wanted, n)),
    decreases n,
{
    if n > 0 {
        field_sites_lead_to_the_field(w, m, wanted, n - 1);
        if let Some(f) = m.func(m.owner[n - 1].0) {
            access_sites_are(
                w,
                m,
                wanted,
                generate::field_sites(w, m, wanted, n - 1),
                m.owner[n - 1].1,
                f.fields,
                f.fields.len() as int,
            );
        }
    } else {
        let t = generate::field_sites(w, m, wanted, n);
        assert(t =~= Seq::empty());
        assert forall|k: (Seq<char>, i32)| (#[trigger] table::list_at(t, k)).len() == 0 by {
            assert(!table::holds(t, k));
        }
    }
}

proof fn ref_sites_are(fs: Seq<(u32, FuncFactsV)>, out: GlobalSites, i: int, n: int, g: u32)
    requires
        0 <= i < fs.len(),
        0 <= n <= fs[i].1.rip_refs.len(),
        table::ordered(out),
    ensures
        ({
            let r = generate::ref_sites(out, fs[i].1.rip_refs, n);
            &&& table::ordered(r)
            &&& forall|s: u32| #[trigger] table::list_at(r, g).contains(s) <==> table::list_at(out, g).contains(s) || exists|k: int|
                0 <= k < n && (#[trigger] fs[i].1.rip_refs[k]).target == g && fs[i].1.rip_refs[k].site == s
        }),
    decreases n,
{
    if n > 0 {
        ref_sites_are(fs, out, i, n - 1, g);
        let refs = fs[i].1.rip_refs;
        let b = generate::ref_sites(out, refs, n - 1);
        let r = generate::ref_sites(out, refs, n);
        let t = refs[n - 1].target;
        let list = table::list_at(b, t).push(refs[n - 1].site);
        table::put_ordered(b, t, list);
        table::get_after_put(b, t, list, g);
        assert forall|s: u32| #[trigger] table::list_at(r, g).contains(s) <==> table::list_at(out, g).contains(s) || exists|k: int|
            0 <= k < n && (#[trigger] fs[i].1.rip_refs[k]).target == g && fs[i].1.rip_refs[k].site == s by {
            pushed_is(table::list_at(b, t), refs[n - 1].site, s);
            assert(table::list_at(b, g).contains(s) <==> table::list_at(out, g).contains(s) || exists|k: int|
                0 <= k < n - 1 && (#[trigger] fs[i].1.rip_refs[k]).target == g && fs[i].1.rip_refs[k].site == s);
            if t == g && refs[n - 1].site == s {
                assert(fs[i].1.rip_refs[n - 1].target == g);
            }
            if exists|k: int| 0 <= k < n && (#[trigger] fs[i].1.rip_refs[k]).target == g && fs[i].1.rip_refs[k].site == s {
                let k = choose|k: int|
                    0 <= k < n && (#[trigger] fs[i].1.rip_refs[k]).target == g && fs[i].1.rip_refs[k].site == s;
                if k < n - 1 {
                    assert(fs[i].1.rip_refs[k].target == g);
                }
            }
        }
    }
}

proof fn pushed_is<A>(s: Seq<A>, x: A, b: A)
    ensures
        s.push(x).contains(b) <==> s.contains(b) || x == b,
{
    if s.contains(b) {
        let k = choose|k: int| 0 <= k < s.len() && s[k] == b;
        assert(s.push(x)[k] == b);
    }
    if x == b {
        assert(s.push(x)[s.len() as int] == b);
    }
    if s.push(x).contains(b) {
        let k = choose|k: int| 0 <= k < s.push(x).len() && s.push(x)[k] == b;
        if k < s.len() {
            assert(s[k] == b);
        }
    }
}

/// The code that a global signature is made from references that global.
pub proof fn global_sites_reference_the_global(fs: Seq<(u32, FuncFactsV)>, n: int, g: u32, s: u32)
    requires
        0 <= n <= fs.len(),
    ensures
        table::ordered(generate::global_sites(fs, n)),
        table::list_at(generate::global_sites(fs, n), g).contains(s) <==> exists|i: int, k: int|
            0 <= i < n && #[trigger] references(fs, i, k, g, s),
    decreases n,
{
    if n > 0 {
        global_sites_reference_the_global(fs, n - 1, g, s);
        let b = generate::global_sites(fs, n - 1);
        let refs = fs[n - 1].1.rip_refs;
        ref_sites_are(fs, b, n - 1, refs.len() as int, g);
        let r = generate::global_sites(fs, n);
        if table::list_at(r, g).contains(s) {
            if table::list_at(b, g).contains(s) {
                let (i, k) = choose|i: int, k: int| 0 <= i < n - 1 && #[trigger] references(fs, i, k, g, s);
                assert(0 <= i < n && references(fs, i, k, g, s));
            } else {
                let k = choose|k: int|
                    0 <= k < refs.len() && (#[trigger] fs[n - 1].1.rip_refs[k]).target == g && fs[n - 1].1.rip_refs[k].site == s;
                assert(0 <= n - 1 < n && references(fs, n - 1, k, g, s));
            }
        }
        if exists|i: int, k: int| 0 <= i < n && #[trigger] references(fs, i, k, g, s) {
            let (i, k) = choose|i: int, k: int| 0 <= i < n && #[trigger] references(fs, i, k, g, s);
            if i == n - 1 {
                assert(fs[n - 1].1.rip_refs[k].target == g);
            } else {
                assert(0 <= i < n - 1 && references(fs, i, k, g, s));
            }
        }
    } else {
        let t = generate::global_sites(fs, n);
        assert(t =~= Seq::empty());
        assert(!table::holds(t, g));
    }
}

/// Reference `k` of function `i` is to a global, at a site.
pub open spec fn references(fs: Seq<(u32, FuncFactsV)>, i: int, k: int, g: u32, s: u32) -> bool {
    0 <= i < fs.len() && 0 <= k < fs[i].1.rip_refs.len() && fs[i].1.rip_refs[k].target == g && fs[i].1.rip_refs[k].site == s
}

} // verus!
