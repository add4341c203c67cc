//! What holds of the fields that are collected for classes: every access that
//! the code makes is counted for the class that declares the offset.

use vstd::prelude::*;

use crate::analysis::{Access, FieldAccess, FuncFactsV, Trivial, VType, Val};
use crate::model::{ModuleV, OwnerV};
use crate::objects::{leaves_class, stores_class};
use crate::structors;
use crate::table;
use crate::world;
use crate::world::{AccessorV, FieldStatV, FieldUseV, Found, WorldV};

verus! {

// ---------------------------------------------------------------------------
// One access.

/// Tables of fields in order.
pub open spec fn is_tidy(w: WorldV) -> bool {
    table::ordered(w.fields) && forall|c: Seq<char>| #[trigger] table::get(w.fields, c) is Some ==> table::ordered(
        table::get(w.fields, c).unwrap(),
    )
}

proof fn field_is_put(w: WorldV, cls: Seq<char>, o: i32, f: FieldStatV, c: Seq<char>, x: i32)
    requires
        is_tidy(w),
    ensures
        is_tidy(w.with_field(cls, o, f)),
        w.with_field(cls, o, f).field(cls, o) == f,
        (c, x) != (cls, o) ==> w.with_field(cls, o, f).field(c, x) == w.field(c, x),
        w.with_field(cls, o, f).classes == w.classes,
{
    let list = table::list_at(w.fields, cls);
    let t = table::put(list, o, f);
    table::put_ordered(list, o, f);
    table::put_ordered(w.fields, cls, t);
    table::get_after_put(w.fields, cls, t, cls);
    table::get_after_put(list, o, f, o);
    table::get_after_put(w.fields, cls, t, c);
    table::get_after_put(list, o, f, x);
    let r = w.with_field(cls, o, f);
    assert forall|d: Seq<char>| #[trigger] table::get(r.fields, d) is Some implies table::ordered(
        table::get(r.fields, d).unwrap(),
    ) by {
        table::get_after_put(w.fields, cls, t, d);
    }
}

/// An access is counted once, by its kind, for the class that declares the
/// offset, with its size, its type and the function that makes it; no other
/// field changes. The pointer to a vtable is no field.
pub proof fn accesses_are_counted(w: WorldV, u: FieldUseV, c: Seq<char>, x: i32)
    requires
        is_tidy(w),
    ensures
        ({
            let (cls, o) = w.resolve_field(u.class, u.off);
            let vptr = (table::get(w.classes, cls) matches Some(v) && table::holds(v.vptr_offsets, o)) && (u.access.size == 8
                || u.access.size == 0);
            let r = w.with_use(u);
            let was = w.field(cls, o);
            let now = r.field(cls, o);
            &&& is_tidy(r) && r.classes == w.classes
            &&& (c, x) != (cls, o) ==> r.field(c, x) == w.field(c, x)
            &&& vptr ==> now == was
            &&& !vptr ==> {
                &&& was.reads < u32::MAX ==> now.reads == was.reads + if u.access.kind == Access::Read {
                    1int
                } else {
                    0
                }
                &&& was.writes < u32::MAX ==> now.writes == was.writes + if u.access.kind == Access::Write {
                    1int
                } else {
                    0
                }
                &&& was.addr < u32::MAX ==> now.addr == was.addr + if u.access.kind == Access::Addr {
                    1int
                } else {
                    0
                }
                &&& table::ordered(was.sizes) && u.access.size > 0 ==> table::holds(now.sizes, u.access.size)
                &&& u.access.size == 0 ==> now.sizes == was.sizes
                &&& table::ordered(was.types) ==> table::holds(now.types, u.access.ty)
                &&& table::ordered(was.funcs) ==> table::holds(now.funcs, (u.module, u.func))
                &&& now.ptr == (was.ptr || u.ptr)
                &&& now.indexed == (was.indexed || u.access.indexed)
                &&& now.getters == was.getters && now.setters == was.setters
            }
        }),
{
    let (cls, o) = w.resolve_field(u.class, u.off);
    let was = w.field(cls, o);
    let f = was.accessed(u.module, u.func, u.access, u.ptr);
    field_is_put(w, cls, o, f, c, x);
    if table::ordered(was.sizes) {
        table::get_after_put(was.sizes, u.access.size, (), u.access.size);
    }
    if table::ordered(was.types) {
        table::get_after_put(was.types, u.access.ty, (), u.access.ty);
    }
    if table::ordered(was.funcs) {
        table::get_after_put(was.funcs, (u.module, u.func), (), (u.module, u.func));
    }
}

/// A named getter or setter gives its name to the field that it reads or
/// writes, and to no other.
pub proof fn accessors_name_fields(w: WorldV, a: AccessorV, c: Seq<char>, x: i32)
    requires
        is_tidy(w),
    ensures
        ({
            let (cls, o) = w.resolve_field(a.class, a.off);
            let r = w.with_accessor(a);
            let was = w.field(cls, o);
            let now = r.field(cls, o);
            &&& is_tidy(r) && r.classes == w.classes
            &&& (c, x) != (cls, o) ==> r.field(c, x) == w.field(c, x)
            &&& a.setter && table::ordered(was.setters) ==> table::holds(now.setters, a.method) && now.getters == was.getters
            &&& !a.setter && table::ordered(was.getters) ==> table::holds(now.getters, a.method) && now.setters == was.setters
            &&& now.reads == was.reads && now.writes == was.writes && now.types == was.types && now.sizes == was.sizes
            &&& now.funcs == was.funcs
        }),
{
    let (cls, o) = w.resolve_field(a.class, a.off);
    let was = w.field(cls, o);
    field_is_put(w, cls, o, was.with_accessor(a.method, a.setter), c, x);
    if table::ordered(was.setters) {
        table::get_after_put(was.setters, a.method, (), a.method);
    }
    if table::ordered(was.getters) {
        table::get_after_put(was.getters, a.method, (), a.method);
    }
}

// ---------------------------------------------------------------------------
// Where accesses come from.

/// Access `j` of the function of owner `k` of module `mi`: it is made to the
/// owning class, at the offset plus that of the subobject that `this` is.
pub open spec fn owner_shows(ms: Seq<ModuleV>, mi: int, k: int, j: int, u: FieldUseV) -> bool {
    let m = ms[mi];
    let (fr, o) = m.owner[k];
    let f = table::get(m.code.funcs, fr).unwrap();
    &&& 0 <= mi < ms.len() && 0 <= k < m.owner.len()
    &&& table::get(m.code.funcs, fr) is Some && f.uses_this && 0 <= j < f.fields.len()
    &&& u.module == mi && u.func == fr && u.class == o.class && u.access == f.fields[j]
    &&& u.off == f.fields[j].off.wrapping_add(o.adj)
    &&& u.ptr == (f.fields[j].size == 8 && f.ptr_fields.contains(f.fields[j].off))
}

/// Access `j` to a fresh allocation in function `i` of module `mi`: it is made
/// to the class whose vtable is left there.
pub open spec fn allocation_shows(ms: Seq<ModuleV>, mi: int, i: int, j: int, u: FieldUseV) -> bool {
    let m = ms[mi];
    let f = m.code.funcs[i].1;
    let (id, a) = f.alloc_fields[j];
    &&& 0 <= mi < ms.len() && 0 <= i < m.code.funcs.len() && 0 <= j < f.alloc_fields.len()
    &&& u.module == mi && u.func == f.start && u.access == a && u.off == a.off && !u.ptr
    &&& leaves_class(m, f, Val::Alloc(id, 0), u.class)
}

proof fn own_uses_are(out: Seq<FieldUseV>, mi: usize, fr: u32, o: OwnerV, f: FuncFactsV, n: int, u: FieldUseV)
    requires
        0 <= n <= f.fields.len(),
    ensures
        world::own_uses(out, mi, fr, o, f, n).contains(u) <==> out.contains(u) || exists|j: int|
            0 <= j < n && u.access == #[trigger] f.fields[j] && u.module == mi && u.func == fr && u.class == o.class && u.off
                == f.fields[j].off.wrapping_add(o.adj) && u.ptr == (f.fields[j].size == 8 && f.ptr_fields.contains(
                f.fields[j].off,
            )),
    decreases n,
{
    if n > 0 {
        own_uses_are(out, mi, fr, o, f, n - 1, u);
        let b = world::own_uses(out, mi, fr, o, f, n - 1);
        let a = f.fields[n - 1];
        let x = FieldUseV {
            module: mi,
            func: fr,
            class: o.class,
            off: a.off.wrapping_add(o.adj),
            access: a,
            ptr: a.size == 8 && f.ptr_fields.contains(a.off),
        };
        pushed_holds(b, x, u);
    }
}

proof fn pushed_holds<A>(s: Seq<A>, x: A, b: A)
    ensures
        s.push(x).contains(b) <==> s.contains(b) || x == b,
{
    if s.contains(b) {
        let k = choose|k: int| 0 <= k < s.len() && s[k] == b;
        assert(s.push(x)[k] == b);
    }
    if x == b {
        assert(s.push(x)[s.len() as int] == b);
    }
    if s.push(x).contains(b) {
        let k = choose|k: int| 0 <= k < s.push(x).len() && s.push(x)[k] == b;
        if k < s.len() {
            assert(s[k] == b);
        }
    }
}

proof fn owned_uses_are(ms: Seq<ModuleV>, found: Found, mi: int, n: int, u: FieldUseV)
    requires
        0 <= mi < ms.len() <= usize::MAX,
        0 <= n <= ms[mi].owner.len(),
    ensures
        world::found_owned(ms[mi], found, mi as usize, n).uses.contains(u) <==> found.uses.contains(u) || exists|
            k: int,
            j: int,
        |
            k < n && #[trigger] owner_shows(ms, mi, k, j, u),
    decreases n,
{
    if n > 0 {
        owned_uses_are(ms, found, mi, n - 1, u);
        let m = ms[mi];
        let (fr, o) = m.owner[n - 1];
        let b = world::found_owned(m, found, mi as usize, n - 1).uses;
        let t = world::found_owned(m, found, mi as usize, n).uses;
        if let Some(f) = m.func(fr) {
            own_uses_are(b, mi as usize, fr, o, f, f.fields.len() as int, u);
            if f.uses_this && t.contains(u) && !b.contains(u) {
                let j = choose|j: int|
                    0 <= j < f.fields.len() && u.access == #[trigger] f.fields[j] && u.module == mi && u.func == fr && u.class
                        == o.class && u.off == f.fields[j].off.wrapping_add(o.adj) && u.ptr == (f.fields[j].size == 8
                        && f.ptr_fields.contains(f.fields[j].off));
                assert(owner_shows(ms, mi, n - 1, j, u));
            }
        }
        if exists|k: int, j: int| k < n - 1 && #[trigger] owner_shows(ms, mi, k, j, u) {
            let (k, j) = choose|k: int, j: int| k < n - 1 && #[trigger] owner_shows(ms, mi, k, j, u);
            assert(k < n && owner_shows(ms, mi, k, j, u));
        }
        if exists|k: int, j: int| k < n && #[trigger] owner_shows(ms, mi, k, j, u) {
            let (k, j) = choose|k: int, j: int| k < n && #[trigger] owner_shows(ms, mi, k, j, u);
            if k == n - 1 {
                let f = m.func(fr).unwrap();
                assert(u.access == f.fields[j]);
            }
        }
    }
}

proof fn fresh_uses_are(ms: Seq<ModuleV>, out: Seq<FieldUseV>, mi: int, i: int, n: int, u: FieldUseV)
    requires
        0 <= mi < ms.len() <= usize::MAX,
        0 <= i < ms[mi].code.funcs.len(),
        0 <= n <= ms[mi].code.funcs[i].1.alloc_fields.len(),
    ensures
        world::fresh_uses(ms[mi], out, mi as usize, ms[mi].code.funcs[i].1, n).contains(u) <==> out.contains(u) || exists|
            j: int,
        |
            j < n && #[trigger] allocation_shows(ms, mi, i, j, u),
    decreases n,
{
    if n > 0 {
        fresh_uses_are(ms, out, mi, i, n - 1, u);
        let m = ms[mi];
        let f = m.code.funcs[i].1;
        let b = world::fresh_uses(m, out, mi as usize, f, n - 1);
        let t = world::fresh_uses(m, out, mi as usize, f, n);
        let (id, a) = f.alloc_fields[n - 1];
        let dst = Val::Alloc(id, 0);
        let cs = structors::stored_classes(m, f.vt_stores, dst, f.vt_stores.len() as int);
        crate::objects::ends_are(m, f, dst);
        if cs.len() > 0 {
            let x = FieldUseV { module: mi as usize, func: f.start, class: cs.last(), off: a.off, access: a, ptr: false };
            pushed_holds(b, x, u);
            assert(leaves_class(m, f, dst, cs.last()));
            assert(allocation_shows(ms, mi, i, n - 1, x));
        }
        if exists|j: int| j < n - 1 && #[trigger] allocation_shows(ms, mi, i, j, u) {
            let j = choose|j: int| j < n - 1 && #[trigger] allocation_shows(ms, mi, i, j, u);
            assert(j < n && allocation_shows(ms, mi, i, j, u));
        }
        if exists|j: int| j < n && #[trigger] allocation_shows(ms, mi, i, j, u) {
            let j = choose|j: int| j < n && #[trigger] allocation_shows(ms, mi, i, j, u);
            if j == n - 1 {
                assert(leaves_class(m, f, dst, u.class));
                assert(cs.len() > 0 && cs.last() == u.class);
            }
        }
    }
}

proof fn all_fresh_are(ms: Seq<ModuleV>, out: Seq<FieldUseV>, mi: int, n: int, u: FieldUseV)
    requires
        0 <= mi < ms.len() <= usize::MAX,
        0 <= n <= ms[mi].code.funcs.len(),
    ensures
        world::found_fresh(ms[mi], out, mi as usize, n).contains(u) <==> out.contains(u) || exists|i: int, j: int|
            i < n && #[trigger] allocation_shows(ms, mi, i, j, u),
    decreases n,
{
    if n > 0 {
        all_fresh_are(ms, out, mi, n - 1, u);
        let f = ms[mi].code.funcs[n - 1].1;
        let b = world::found_fresh(ms[mi], out, mi as usize, n - 1);
        let t = world::found_fresh(ms[mi], out, mi as usize, n);
        fresh_uses_are(ms, b, mi, n - 1, f.alloc_fields.len() as int, u);
        if exists|i: int, j: int| i < n - 1 && #[trigger] allocation_shows(ms, mi, i, j, u) {
            let (i, j) = choose|i: int, j: int| i < n - 1 && #[trigger] allocation_shows(ms, mi, i, j, u);
            assert(i < n && allocation_shows(ms, mi, i, j, u));
        }
        if exists|i: int, j: int| i < n && #[trigger] allocation_shows(ms, mi, i, j, u) {
            let (i, j) = choose|i: int, j: int| i < n && #[trigger] allocation_shows(ms, mi, i, j, u);
            if i == n - 1 {
                assert(j < f.alloc_fields.len() && allocation_shows(ms, mi, n - 1, j, u));
            }
        }
        if t.contains(u) && !b.contains(u) {
            let j = choose|j: int| j < f.alloc_fields.len() && #[trigger] allocation_shows(ms, mi, n - 1, j, u);
            assert(n - 1 < n && allocation_shows(ms, mi, n - 1, j, u));
        }
    }
}

/// An access that the code of the modules makes.
pub open spec fn is_shown(ms: Seq<ModuleV>, u: FieldUseV) -> bool {
    (exists|mi: int, k: int, j: int| #[trigger] owner_shows(ms, mi, k, j, u)) || (exists|mi: int, i: int, j: int| #[trigger]
        allocation_shows(ms, mi, i, j, u))
}

proof fn found_are(ms: Seq<ModuleV>, n: int, u: FieldUseV)
    requires
        0 <= n <= ms.len() <= usize::MAX,
    ensures
        world::found_in(ms, n).uses.contains(u) <==> (exists|mi: int, k: int, j: int|
            mi < n && #[trigger] owner_shows(ms, mi, k, j, u)) || (exists|mi: int, i: int, j: int|
            mi < n && #[trigger] allocation_shows(ms, mi, i, j, u)),
    decreases n,
{
    if n > 0 {
        found_are(ms, n - 1, u);
        let m = ms[n - 1];
        let b = world::found_in(ms, n - 1);
        let s = world::found_owned(m, b, (n - 1) as usize, m.owner.len() as int);
        owned_uses_are(ms, b, n - 1, m.owner.len() as int, u);
        all_fresh_are(ms, s.uses, n - 1, m.code.funcs.len() as int, u);
        let t = world::found_in(ms, n).uses;
        if t.contains(u) {
            if b.uses.contains(u) {
                if exists|mi: int, k: int, j: int| mi < n - 1 && #[trigger] owner_shows(ms, mi, k, j, u) {
                    let (mi, k, j) = choose|mi: int, k: int, j: int| mi < n - 1 && #[trigger] owner_shows(ms, mi, k, j, u);
                    assert(mi < n && owner_shows(ms, mi, k, j, u));
                } else {
                    let (mi, i, j) = choose|mi: int, i: int, j: int|
                        mi < n - 1 && #[trigger] allocation_shows(ms, mi, i, j, u);
                    assert(mi < n && allocation_shows(ms, mi, i, j, u));
                }
            } else if s.uses.contains(u) {
                let (k, j) = choose|k: int, j: int| k < m.owner.len() && #[trigger] owner_shows(ms, n - 1, k, j, u);
                assert(n - 1 < n && owner_shows(ms, n - 1, k, j, u));
            } else {
                let (i, j) = choose|i: int, j: int| i < m.code.funcs.len() && #[trigger] allocation_shows(ms, n - 1, i, j, u);
                assert(n - 1 < n && allocation_shows(ms, n - 1, i, j, u));
            }
        }
        if exists|mi: int, k: int, j: int| mi < n && #[trigger] owner_shows(ms, mi, k, j, u) {
            let (mi, k, j) = choose|mi: int, k: int, j: int| mi < n && #[trigger] owner_shows(ms, mi, k, j, u);
            if mi == n - 1 {
                assert(k < m.owner.len() && owner_shows(ms, n - 1, k, j, u));
            }
        }
        if exists|mi: int, i: int, j: int| mi < n && #[trigger] allocation_shows(ms, mi, i, j, u) {
            let (mi, i, j) = choose|mi: int, i: int, j: int| mi < n && #[trigger] allocation_shows(ms, mi, i, j, u);
            if mi == n - 1 {
                assert(i < m.code.funcs.len() && allocation_shows(ms, n - 1, i, j, u));
            }
        }
    } else {
        assert(world::found_in(ms, n).uses =~= Seq::empty());
    }
}

/// The accesses that are collected are those that the code makes, and all of
/// them.
pub proof fn accesses_are_those_of_the_code(ms: Seq<ModuleV>, u: FieldUseV)
    requires
        ms.len() <= usize::MAX,
    ensures
        world::found_in(ms, ms.len() as int).uses.contains(u) <==> is_shown(ms, u),
{
    let n = ms.len() as int;
    found_are(ms, n, u);
    if exists|mi: int, k: int, j: int| #[trigger] owner_shows(ms, mi, k, j, u) {
        let (mi, k, j) = choose|mi: int, k: int, j: int| #[trigger] owner_shows(ms, mi, k, j, u);
        assert(mi < n && owner_shows(ms, mi, k, j, u));
    }
    if exists|mi: int, i: int, j: int| #[trigger] allocation_shows(ms, mi, i, j, u) {
        let (mi, i, j) = choose|mi: int, i: int, j: int| #[trigger] allocation_shows(ms, mi, i, j, u);
        assert(mi < n && allocation_shows(ms, mi, i, j, u));
    }
}

// ---------------------------------------------------------------------------
// The whole program.

/// The lists of a field in order.
pub open spec fn is_neat(f: FieldStatV) -> bool {
    table::ordered(f.sizes) && table::ordered(f.types) && table::ordered(f.funcs) && table::ordered(f.getters)
        && table::ordered(f.setters)
}

pub open spec fn all_neat(w: WorldV) -> bool {
    is_tidy(w) && forall|c: Seq<char>, o: i32| is_neat(#[trigger] w.field(c, o))
}

/// A field knows of an access: its function, its type and its size.
pub open spec fn knows(f: FieldStatV, u: FieldUseV) -> bool {
    table::holds(f.funcs, (u.module, u.func)) && table::holds(f.types, u.access.ty) && (u.access.size > 0 ==> table::holds(
        f.sizes,
        u.access.size,
    )) && (u.ptr ==> f.ptr) && (u.access.indexed ==> f.indexed)
}

/// An access that counts: what it reaches is no pointer to a vtable.
pub open spec fn reaches_field(w: WorldV, u: FieldUseV) -> bool {
    let (cls, o) = w.resolve_field(u.class, u.off);
    !((table::get(w.classes, cls) matches Some(v) && table::holds(v.vptr_offsets, o)) && (u.access.size == 8 || u.access.size
        == 0))
}

proof fn use_keeps(w: WorldV, x: FieldUseV, c: Seq<char>, o: i32, u: FieldUseV)
    requires
        all_neat(w),
    ensures
        all_neat(w.with_use(x)),
        w.with_use(x).classes == w.classes,
        knows(w.field(c, o), u) ==> knows(w.with_use(x).field(c, o), u),
        reaches_field(w, x) ==> ({
            let (d, p) = w.resolve_field(x.class, x.off);
            knows(w.with_use(x).field(d, p), x)
        }),
{
    let (d, p) = w.resolve_field(x.class, x.off);
    let was = w.field(d, p);
    let now = was.accessed(x.module, x.func, x.access, x.ptr);
    assert(is_neat(was));
    table::put_ordered(was.sizes, x.access.size, ());
    table::put_ordered(was.types, x.access.ty, ());
    table::put_ordered(was.funcs, (x.module, x.func), ());
    table::get_after_put(was.sizes, x.access.size, (), u.access.size);
    table::get_after_put(was.types, x.access.ty, (), u.access.ty);
    table::get_after_put(was.funcs, (x.module, x.func), (), (u.module, u.func));
    table::get_after_put(was.sizes, x.access.size, (), x.access.size);
    table::get_after_put(was.types, x.access.ty, (), x.access.ty);
    table::get_after_put(was.funcs, (x.module, x.func), (), (x.module, x.func));
    let r = w.with_use(x);
    field_is_put(w, d, p, now, c, o);
    assert forall|e: Seq<char>, q: i32| is_neat(#[trigger] r.field(e, q)) by {
        field_is_put(w, d, p, now, e, q);
        assert(is_neat(w.field(e, q)));
    }
}

proof fn uses_keep(w: WorldV, uses: Seq<FieldUseV>, n: int, i: int)
    requires
        all_neat(w),
        0 <= n <= uses.len(),
        0 <= i < uses.len(),
    ensures
        all_neat(world::with_uses(w, uses, n)),
        world::with_uses(w, uses, n).classes == w.classes,
        i < n && reaches_field(w, uses[i]) ==> ({
            let (d, p) = w.resolve_field(uses[i].class, uses[i].off);
            knows(world::with_uses(w, uses, n).field(d, p), uses[i])
        }),
    decreases n,
{
    if n > 0 {
        uses_keep(w, uses, n - 1, i);
        let s = world::with_uses(w, uses, n - 1);
        let (d, p) = w.resolve_field(uses[i].class, uses[i].off);
        same_resolution(w, s, uses[i].class, uses[i].off, 64);
        same_resolution(w, s, uses[n - 1].class, uses[n - 1].off, 64);
        use_keeps(s, uses[n - 1], d, p, uses[i]);
    }
}

proof fn same_resolution(a: WorldV, b: WorldV, class: Seq<char>, off: i32, n: nat)
    requires
        a.classes == b.classes,
    ensures
        a.resolve_within(class, off, n) == b.resolve_within(class, off, n),
    decreases n,
{
    if n > 0 {
        if let Some(v) = table::get(a.classes, class) {
            same_holding(a, b, world::laid_bases(v), off, 0);
            if let Some((c, o)) = world::holding_base(a, world::laid_bases(v), off, 0) {
                same_resolution(a, b, c, o, (n - 1) as nat);
            }
        }
    }
}

proof fn same_holding(a: WorldV, b: WorldV, bs: Seq<crate::rtti::BaseClassV>, off: i32, i: int)
    requires
        a.classes == b.classes,
    ensures
        world::holding_base(a, bs, off, i) == world::holding_base(b, bs, off, i),
    decreases bs.len() - i,
{
    if 0 <= i < bs.len() {
        same_holding(a, b, bs, off, i + 1);
    }
}

proof fn accessor_keeps(w: WorldV, a: AccessorV, c: Seq<char>, o: i32, u: FieldUseV)
    requires
        all_neat(w),
    ensures
        all_neat(w.with_accessor(a)),
        w.with_accessor(a).classes == w.classes,
        knows(w.field(c, o), u) ==> knows(w.with_accessor(a).field(c, o), u),
{
    let (d, p) = w.resolve_field(a.class, a.off);
    let was = w.field(d, p);
    assert(is_neat(was));
    let now = was.with_accessor(a.method, a.setter);
    table::put_ordered(was.getters, a.method, ());
    table::put_ordered(was.setters, a.method, ());
    field_is_put(w, d, p, now, c, o);
    let r = w.with_accessor(a);
    assert forall|e: Seq<char>, q: i32| is_neat(#[trigger] r.field(e, q)) by {
        field_is_put(w, d, p, now, e, q);
        assert(is_neat(w.field(e, q)));
    }
}

proof fn accessors_keep(w: WorldV, list: Seq<AccessorV>, n: int, c: Seq<char>, o: i32, u: FieldUseV)
    requires
        all_neat(w),
    ensures
        all_neat(world::with_accessors(w, list, n)),
        world::with_accessors(w, list, n).classes == w.classes,
        knows(w.field(c, o), u) ==> knows(world::with_accessors(w, list, n).field(c, o), u),
    decreases n,
{
    if n > 0 {
        accessors_keep(w, list, n - 1, c, o, u);
        accessor_keeps(world::with_accessors(w, list, n - 1), list[n - 1], c, o, u);
    }
}

/// Every access that the code makes to a member is known to the field of the
/// class that declares the offset.
pub proof fn fields_know_their_accesses(w: WorldV, u: FieldUseV)
    requires
        w.fields.len() == 0,
        w.modules.len() <= usize::MAX,
        is_shown(w.modules, u),
        reaches_field(w, u),
    ensures
        ({
            let (cls, o) = w.resolve_field(u.class, u.off);
            knows(w.fields_built().field(cls, o), u)
        }),
{
    let f = world::found_in(w.modules, w.modules.len() as int);
    accesses_are_those_of_the_code(w.modules, u);
    let i = choose|i: int| 0 <= i < f.uses.len() && f.uses[i] == u;
    let (cls, o) = w.resolve_field(u.class, u.off);
    assert forall|c: Seq<char>, x: i32| is_neat(#[trigger] w.field(c, x)) by {
        assert(w.field(c, x) == FieldStatV::blank());
    }
    uses_keep(w, f.uses, f.uses.len() as int, i);
    let s = world::with_uses(w, f.uses, f.uses.len() as int);
    accessors_keep(s, f.accessors, f.accessors.len() as int, cls, o, u);
}

} // verus!
