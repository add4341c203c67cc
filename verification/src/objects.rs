//! What holds of the constructors, destructors, sizes and singletons that are
//! found in a module.

use vstd::prelude::*;

use crate::analysis::{Allocation, CallSite, FuncFactsV, GlobalStore, Target, Val, VtStore};
use crate::model::{ModuleV, NameSrc, NameV, SingletonV, SizeInfoV};
use crate::names;
use crate::rtti::{BaseClassV, ClassV, VtableV};
use crate::structors;
use crate::structors::{Allocated, Dtors, Sizes, Structor, Structors};
use crate::table;
use crate::table::Ordered;

verus! {

// ---------------------------------------------------------------------------
// Vtables of classes.

/// The vtable at `vt` is that of a class for the start of its objects.
pub open spec fn is_primary_of(m: ModuleV, vt: u32, c: Seq<char>) -> bool {
    table::get(m.rtti.vtable_owner, vt) matches Some((n, i)) && n == c && (table::get(m.rtti.classes, c) matches Some(k)
        && i < k.vtables.len() && k.vtables[i as int].offset == 0)
}

/// Store `k` of a function puts the vtable of class `c` into the start of an
/// object.
pub open spec fn stores_class(m: ModuleV, f: FuncFactsV, dst: Val, k: int, c: Seq<char>) -> bool {
    0 <= k < f.vt_stores.len() && f.vt_stores[k].dst == dst && is_primary_of(m, f.vt_stores[k].vt, c)
}

/// The vtable that a function leaves in an object is that of class `c`: no
/// other is stored behind it.
pub open spec fn leaves_class(m: ModuleV, f: FuncFactsV, dst: Val, c: Seq<char>) -> bool {
    exists|k: int| #[trigger]
        stores_class(m, f, dst, k, c) && forall|j: int, d: Seq<char>| j > k ==> !#[trigger] stores_class(m, f, dst, j, d)
}

/// The first vtable that a function stores into an object is that of `c`.
pub open spec fn starts_with_class(m: ModuleV, f: FuncFactsV, dst: Val, c: Seq<char>) -> bool {
    exists|k: int| #[trigger]
        stores_class(m, f, dst, k, c) && forall|j: int, d: Seq<char>| j < k ==> !#[trigger] stores_class(m, f, dst, j, d)
}

/// A class is derived from another.
pub open spec fn derives(m: ModuleV, c: Seq<char>, from: Seq<char>) -> bool {
    table::get(m.rtti.classes, c) matches Some(k) && exists|i: int|
        0 <= i < k.all_bases.len() && (#[trigger] k.all_bases[i]).name == from
}

proof fn primaries_agree(m: ModuleV, vt: u32, c: Seq<char>)
    ensures
        m.primary_class(vt) == Some(c) <==> is_primary_of(m, vt, c),
{
}

proof fn stored_are(m: ModuleV, f: FuncFactsV, dst: Val, n: int)
    requires
        0 <= n <= f.vt_stores.len(),
    ensures
        ({
            let s = structors::stored_classes(m, f.vt_stores, dst, n);
            &&& s.len() == 0 <==> forall|k: int, c: Seq<char>| k < n ==> !#[trigger] stores_class(m, f, dst, k, c)
            &&& s.len() > 0 ==> exists|k: int| #[trigger]
                stores_class(m, f, dst, k, s.last()) && k < n && forall|j: int, d: Seq<char>|
                    k < j < n ==> !#[trigger] stores_class(m, f, dst, j, d)
            &&& s.len() > 0 ==> exists|k: int| #[trigger]
                stores_class(m, f, dst, k, s.first()) && k < n && forall|j: int, d: Seq<char>|
                    j < k ==> !#[trigger] stores_class(m, f, dst, j, d)
            &&& forall|c: Seq<char>| #[trigger] s.contains(c) <==> exists|k: int| k < n && #[trigger] stores_class(m, f, dst, k, c)
        }),
    decreases n,
{
    let s = structors::stored_classes(m, f.vt_stores, dst, n);
    if n > 0 {
        stored_are(m, f, dst, n - 1);
        let b = structors::stored_classes(m, f.vt_stores, dst, n - 1);
        let x = f.vt_stores[n - 1];
        assert forall|c: Seq<char>| m.primary_class(x.vt) == Some(c) <==> #[trigger] is_primary_of(m, x.vt, c) by {
            primaries_agree(m, x.vt, c);
        }
        if x.dst == dst && m.primary_class(x.vt) is Some {
            let c = m.primary_class(x.vt).unwrap();
            assert(is_primary_of(m, x.vt, c));
            assert(stores_class(m, f, dst, n - 1, c));
            assert(s == b.push(c) && s.last() == c);
            if b.len() > 0 {
                assert(s.first() == b.first());
                let k = choose|k: int| #[trigger]
                    stores_class(m, f, dst, k, b.first()) && k < n - 1 && forall|j: int, d: Seq<char>|
                        j < k ==> !#[trigger] stores_class(m, f, dst, j, d);
                assert(stores_class(m, f, dst, k, s.first()));
            } else {
                assert(s.first() == c);
                assert(stores_class(m, f, dst, n - 1, s.first()));
            }
            assert forall|e: Seq<char>| #[trigger] s.contains(e) <==> exists|k: int|
                k < n && #[trigger] stores_class(m, f, dst, k, e) by {
                if s.contains(e) {
                    let i = choose|i: int| 0 <= i < s.len() && s[i] == e;
                    if i < b.len() {
                        assert(b[i] == e);
                        assert(b.contains(e));
                    }
                }
                if exists|k: int| k < n && #[trigger] stores_class(m, f, dst, k, e) {
                    let k = choose|k: int| k < n && #[trigger] stores_class(m, f, dst, k, e);
                    if k < n - 1 {
                        assert(b.contains(e));
                        let i = choose|i: int| 0 <= i < b.len() && b[i] == e;
                        assert(s[i] == e);
                    } else {
                        primaries_agree(m, x.vt, e);
                        assert(s[b.len() as int] == e);
                    }
                }
            }
        } else {
            assert(s == b);
            assert forall|d: Seq<char>| !#[trigger] stores_class(m, f, dst, n - 1, d) by {
                primaries_agree(m, x.vt, d);
            }
            if b.len() > 0 {
                let k = choose|k: int| #[trigger]
                    stores_class(m, f, dst, k, b.last()) && k < n - 1 && forall|j: int, d: Seq<char>|
                        k < j < n - 1 ==> !#[trigger] stores_class(m, f, dst, j, d);
                assert(stores_class(m, f, dst, k, s.last()));
                let a = choose|a: int| #[trigger]
                    stores_class(m, f, dst, a, b.first()) && a < n - 1 && forall|j: int, d: Seq<char>|
                        j < a ==> !#[trigger] stores_class(m, f, dst, j, d);
                assert(stores_class(m, f, dst, a, s.first()));
            }
            assert forall|e: Seq<char>| #[trigger] s.contains(e) <==> exists|k: int|
                k < n && #[trigger] stores_class(m, f, dst, k, e) by {
                if exists|k: int| k < n && #[trigger] stores_class(m, f, dst, k, e) {
                    let k = choose|k: int| k < n && #[trigger] stores_class(m, f, dst, k, e);
                    assert(k < n - 1);
                }
                if b.contains(e) {
                    let k = choose|k: int| k < n - 1 && #[trigger] stores_class(m, f, dst, k, e);
                    assert(k < n && stores_class(m, f, dst, k, e));
                }
            }
        }
    } else {
        assert forall|c: Seq<char>| !#[trigger] s.contains(c) by {}
    }
}

/// The vtables that a function stores into `this`, as the two ends of the list.
pub(crate) proof fn ends_are(m: ModuleV, f: FuncFactsV, dst: Val)
    ensures
        ({
            let s = structors::stored_classes(m, f.vt_stores, dst, f.vt_stores.len() as int);
            &&& s.len() > 0 ==> leaves_class(m, f, dst, s.last()) && starts_with_class(m, f, dst, s.first())
            &&& forall|c: Seq<char>| #[trigger] leaves_class(m, f, dst, c) ==> s.len() > 0 && s.last() == c
            &&& forall|c: Seq<char>| #[trigger] starts_with_class(m, f, dst, c) ==> s.len() > 0 && s.first() == c
        }),
{
    let n = f.vt_stores.len() as int;
    let s = structors::stored_classes(m, f.vt_stores, dst, n);
    stored_are(m, f, dst, n);
    if s.len() > 0 {
        let k = choose|k: int| #[trigger]
            stores_class(m, f, dst, k, s.last()) && k < n && forall|j: int, d: Seq<char>|
                k < j < n ==> !#[trigger] stores_class(m, f, dst, j, d);
        assert forall|j: int, d: Seq<char>| j > k implies !#[trigger] stores_class(m, f, dst, j, d) by {}
        assert(stores_class(m, f, dst, k, s.last()));
        let a = choose|a: int| #[trigger]
            stores_class(m, f, dst, a, s.first()) && a < n && forall|j: int, d: Seq<char>|
                j < a ==> !#[trigger] stores_class(m, f, dst, j, d);
        assert(stores_class(m, f, dst, a, s.first()));
        assert forall|c: Seq<char>| #[trigger] leaves_class(m, f, dst, c) implies s.last() == c by {
            let i = choose|i: int| #[trigger]
                stores_class(m, f, dst, i, c) && forall|j: int, d: Seq<char>| j > i ==> !#[trigger] stores_class(m, f, dst, j, d);
            assert(i == k);
        }
        assert forall|c: Seq<char>| #[trigger] starts_with_class(m, f, dst, c) implies s.first() == c by {
            let i = choose|i: int| #[trigger]
                stores_class(m, f, dst, i, c) && forall|j: int, d: Seq<char>| j < i ==> !#[trigger] stores_class(m, f, dst, j, d);
            assert(i == a);
        }
    }
}

// ---------------------------------------------------------------------------
// Constructors and destructors.

/// The functions of a module are stored in order under their starts.
pub open spec fn by_start(m: ModuleV) -> bool {
    table::ordered(m.code.funcs) && forall|i: int|
        0 <= i < m.code.funcs.len() ==> (#[trigger] m.code.funcs[i]).0 == m.code.funcs[i].1.start
}

proof fn structors_are(m: ModuleV, n: int, i: int)
    requires
        by_start(m),
        table::ordered(m.dtors),
        0 <= n <= m.code.funcs.len(),
        0 <= i < m.code.funcs.len(),
    ensures
        ({
            let s = structors::structors_of(m, n);
            let f = m.code.funcs[i].1;
            let prim = structors::stored_classes(m, f.vt_stores, Val::This(0), f.vt_stores.len() as int);
            let over = table::holds(m.scalar_dtors, f.start) || table::holds(m.dtors, f.start) || prim.len() == 0;
            let chain = prim.first() != prim.last() && m.is_ancestor(prim.last(), prim.first());
            &&& table::ordered(s.ctors) && table::ordered(s.dtors)
            &&& i >= n || over || chain ==> table::get(s.ctors, f.start) is None
            &&& i < n && !over && !chain ==> table::get(s.ctors, f.start) == Some(prim.last())
            &&& i >= n || over || !chain ==> table::get(s.dtors, f.start) == table::get(m.dtors, f.start)
            &&& i < n && !over && chain ==> table::get(s.dtors, f.start) == Some(prim.first())
        }),
    decreases n,
{
    if n > 0 {
        structors_are(m, n - 1, i);
        structors_are(m, n - 1, n - 1);
        let b = structors::structors_of(m, n - 1);
        let g = m.code.funcs[n - 1].1;
        let f = m.code.funcs[i].1;
        assert(m.code.funcs[i].0 == f.start && m.code.funcs[n - 1].0 == g.start);
        if i != n - 1 {
            assert(f.start != g.start);
        }
        let prim = structors::stored_classes(m, g.vt_stores, Val::This(0), g.vt_stores.len() as int);
        if prim.len() > 0 {
            table::get_after_put(b.ctors, g.start, prim.last(), f.start);
            table::get_after_put(b.dtors, g.start, prim.first(), f.start);
        }
    } else {
        let s = structors::structors_of(m, n);
        assert(s.ctors =~= Seq::empty());
    }
}

/// What is looked at between the steps of the search.
proof fn found_parts(m: ModuleV) -> (r: (ModuleV, ModuleV, ModuleV, Dtors, Allocated))
    ensures
        ({
            let (a, b, c, d, e) = r;
            let x = m.structors_and_sizes_found();
            &&& a == (ModuleV { deleters: m.deleters_found(), allocators: m.allocators_found(), ..m })
            &&& d == structors::dtors_of(a, a.rtti.classes.len() as int)
            &&& b == (ModuleV { scalar_dtors: d.scalar, dtors: d.inner, ..a })
            &&& c == (ModuleV {
                ctors: structors::structors_of(b, b.code.funcs.len() as int).ctors,
                dtors: structors::structors_of(b, b.code.funcs.len() as int).dtors,
                ..b
            })
            &&& e == structors::allocated(c, d.sizes, c.code.funcs.len() as int)
            &&& x.ctors == c.ctors && x.dtors == c.dtors && x.scalar_dtors == c.scalar_dtors
            &&& x.deleters == c.deleters && x.allocators == c.allocators
            &&& x.rtti == m.rtti && x.code == m.code && x.pe == m.pe
            &&& x.singletons == structors::ordered_singletons(e.singletons)
            &&& x.sizes == structors::sizes_picked(m.sizes, e.sizes, e.sizes.len() as int)
        }),
{
    let a = ModuleV { deleters: m.deleters_found(), allocators: m.allocators_found(), ..m };
    let d = structors::dtors_of(a, a.rtti.classes.len() as int);
    let b = ModuleV { scalar_dtors: d.scalar, dtors: d.inner, ..a };
    let s = structors::structors_of(b, b.code.funcs.len() as int);
    let c = ModuleV { ctors: s.ctors, dtors: s.dtors, ..b };
    let e = structors::allocated(c, d.sizes, c.code.funcs.len() as int);
    let y = ModuleV {
        singletons: structors::ordered_singletons(e.singletons),
        sizes: structors::sizes_picked(m.sizes, e.sizes, e.sizes.len() as int),
        ..c
    };
    let m1 = structors::structors_named(y, y.ctors, Structor::Ctor, y.ctors.len() as int);
    naming_keeps(y, y.ctors, Structor::Ctor, y.ctors.len() as int);
    let m2 = structors::structors_named(m1, y.dtors, Structor::Dtor, y.dtors.len() as int);
    naming_keeps(m1, y.dtors, Structor::Dtor, y.dtors.len() as int);
    let m3 = structors::structors_named(m2, y.scalar_dtors, Structor::Scalar, y.scalar_dtors.len() as int);
    naming_keeps(m2, y.scalar_dtors, Structor::Scalar, y.scalar_dtors.len() as int);
    let m4 = structors::deleters_named(m3, y.deleters, y.deleters.len() as int);
    deleters_keep(m3, y.deleters, y.deleters.len() as int);
    allocators_keep(m4, y.allocators, y.allocators.len() as int);
    (a, b, c, d, e)
}

/// Two modules that differ in names alone.
pub open spec fn same_but_names(a: ModuleV, b: ModuleV) -> bool {
    b == (ModuleV { names: b.names, aliases: b.aliases, ..a })
}

proof fn naming_keeps(m: ModuleV, list: Seq<(u32, Seq<char>)>, kind: Structor, n: int)
    ensures
        same_but_names(m, structors::structors_named(m, list, kind, n)),
    decreases n,
{
    if n > 0 {
        naming_keeps(m, list, kind, n - 1);
    }
}

proof fn deleters_keep(m: ModuleV, list: Seq<(Target, usize)>, n: int)
    ensures
        same_but_names(m, structors::deleters_named(m, list, n)),
    decreases n,
{
    if n > 0 {
        deleters_keep(m, list, n - 1);
    }
}

proof fn allocators_keep(m: ModuleV, list: Seq<(u32, usize)>, n: int)
    ensures
        same_but_names(m, structors::allocators_named(m, list, n)),
    decreases n,
{
    if n > 0 {
        allocators_keep(m, list, n - 1);
    }
}

proof fn dtors_ordered(m: ModuleV, n: int)
    requires
        table::ordered(m.dtors),
        table::ordered(m.scalar_dtors),
        n <= m.rtti.classes.len(),
    ensures
        table::ordered(structors::dtors_of(m, n).inner),
        table::ordered(structors::dtors_of(m, n).scalar),
        table::ordered(structors::dtors_of(m, n).sizes),
    decreases n,
{
    if n > 0 {
        dtors_ordered(m, n - 1);
        let d = structors::dtors_of(m, n - 1);
        let c = m.rtti.classes[n - 1].1;
        if let Some(v) = c.primary_vtable() {
            if let Some((t, size)) = structors::deleting_dtor(m, v.entries, 0) {
                table::put_ordered(d.scalar, t, c.name);
                if let Some(f) = m.func(t) {
                    if let Some(i) = structors::inner_dtor(f.calls, m.deleters, 0) {
                        table::put_ordered(d.inner, i, c.name);
                    }
                }
                saw_ordered(d.sizes, c.name, size);
            }
        }
    } else {
        assert(structors::dtors_of(m, n).sizes =~= Seq::empty());
    }
}

proof fn saw_ordered(obs: Sizes, cls: Seq<char>, size: u64)
    requires
        table::ordered(obs),
    ensures
        table::ordered(structors::saw_delete(obs, cls, size)),
        table::ordered(structors::saw_new(obs, cls, size)),
{
    let o = table::list_at(obs, cls);
    let n = match table::get(o, size) {
        Some(e) => e.0,
        None => 0,
    };
    table::put_ordered(obs, cls, table::put(o, size, (n.wrapping_add(1), "sized delete"@)));
    let (k, src) = match table::get(o, size) {
        Some(e) => e,
        None => (0, "operator new"@),
    };
    table::put_ordered(obs, cls, table::put(o, size, (k.wrapping_add(1), src)));
}

/// A constructor belongs to the class whose vtable it leaves in `this`: if it
/// stores the vtable of a base first and that of a derived class last, to the
/// derived class. A function that stores vtables into `this` and is no
/// destructor is a constructor; one that stores the vtable of a class first and
/// leaves that of one of its bases is none, but a destructor of the class.
pub proof fn constructors_leave_their_vtable(m: ModuleV, i: int)
    requires
        by_start(m),
        table::ordered(m.dtors),
        table::ordered(m.scalar_dtors),
        0 <= i < m.code.funcs.len(),
    ensures
        ({
            let r = m.structors_and_sizes_found();
            let f = m.code.funcs[i].1;
            let dst = Val::This(0);
            &&& table::get(r.ctors, f.start) matches Some(c) ==> leaves_class(m, f, dst, c)
            &&& forall|c: Seq<char>|
                #[trigger] leaves_class(m, f, dst, c) && !table::holds(r.dtors, f.start) && !table::holds(r.scalar_dtors, f.start)
                    ==> table::get(r.ctors, f.start) == Some(c)
            &&& forall|a: Seq<char>, c: Seq<char>|
                #[trigger] starts_with_class(m, f, dst, a) && #[trigger] leaves_class(m, f, dst, c) && a != c && derives(m, a, c)
                    ==> table::get(r.ctors, f.start) is None && (table::holds(r.dtors, f.start) || table::holds(
                    r.scalar_dtors,
                    f.start,
                ))
            &&& table::get(r.ctors, f.start) is Some ==> !table::holds(r.scalar_dtors, f.start) && !table::holds(
                r.dtors,
                f.start,
            )
        }),
{
    let (a, b, c, d, e) = found_parts(m);
    let f = m.code.funcs[i].1;
    let dst = Val::This(0);
    dtors_ordered(a, a.rtti.classes.len() as int);
    structors_are(b, b.code.funcs.len() as int, i);
    ends_are(b, f, dst);
    let prim = structors::stored_classes(b, f.vt_stores, dst, f.vt_stores.len() as int);
    same_classes(m, b, f, dst);
    if prim.len() > 0 {
        assert(leaves_class(m, f, dst, prim.last()) && starts_with_class(m, f, dst, prim.first()));
    }
    assert forall|x: Seq<char>| #[trigger] leaves_class(m, f, dst, x) implies prim.len() > 0 && prim.last() == x by {
        assert(leaves_class(b, f, dst, x));
    }
    assert forall|x: Seq<char>| #[trigger] starts_with_class(m, f, dst, x) implies prim.len() > 0 && prim.first() == x by {
        assert(starts_with_class(b, f, dst, x));
    }
    if prim.len() > 0 {
        if derives(m, prim.first(), prim.last()) {
            assert(b.is_ancestor(prim.last(), prim.first()));
        }
    }
}

/// Where classes are the same, the same vtables are stored.
proof fn same_classes(a: ModuleV, b: ModuleV, f: FuncFactsV, dst: Val)
    requires
        a.rtti == b.rtti,
    ensures
        forall|x: Seq<char>| #[trigger] leaves_class(a, f, dst, x) == leaves_class(b, f, dst, x),
        forall|x: Seq<char>| #[trigger] starts_with_class(a, f, dst, x) == starts_with_class(b, f, dst, x),
        forall|k: int, x: Seq<char>| #[trigger] stores_class(a, f, dst, k, x) == stores_class(b, f, dst, k, x),
{
    assert forall|k: int, x: Seq<char>| #[trigger] stores_class(a, f, dst, k, x) == stores_class(b, f, dst, k, x) by {}
    assert forall|x: Seq<char>| #[trigger] leaves_class(a, f, dst, x) == leaves_class(b, f, dst, x) by {
        if leaves_class(a, f, dst, x) {
            let k = choose|k: int| #[trigger]
                stores_class(a, f, dst, k, x) && forall|j: int, d: Seq<char>| j > k ==> !#[trigger] stores_class(a, f, dst, j, d);
            assert(stores_class(b, f, dst, k, x));
            assert forall|j: int, d: Seq<char>| j > k implies !#[trigger] stores_class(b, f, dst, j, d) by {
                assert(!stores_class(a, f, dst, j, d));
            }
        }
        if leaves_class(b, f, dst, x) {
            let k = choose|k: int| #[trigger]
                stores_class(b, f, dst, k, x) && forall|j: int, d: Seq<char>| j > k ==> !#[trigger] stores_class(b, f, dst, j, d);
            assert(stores_class(a, f, dst, k, x));
            assert forall|j: int, d: Seq<char>| j > k implies !#[trigger] stores_class(a, f, dst, j, d) by {
                assert(!stores_class(b, f, dst, j, d));
            }
        }
    }
    assert forall|x: Seq<char>| #[trigger] starts_with_class(a, f, dst, x) == starts_with_class(b, f, dst, x) by {
        if starts_with_class(a, f, dst, x) {
            let k = choose|k: int| #[trigger]
                stores_class(a, f, dst, k, x) && forall|j: int, d: Seq<char>| j < k ==> !#[trigger] stores_class(a, f, dst, j, d);
            assert(stores_class(b, f, dst, k, x));
            assert forall|j: int, d: Seq<char>| j < k implies !#[trigger] stores_class(b, f, dst, j, d) by {
                assert(!stores_class(a, f, dst, j, d));
            }
        }
        if starts_with_class(b, f, dst, x) {
            let k = choose|k: int| #[trigger]
                stores_class(b, f, dst, k, x) && forall|j: int, d: Seq<char>| j < k ==> !#[trigger] stores_class(b, f, dst, j, d);
            assert(stores_class(a, f, dst, k, x));
            assert forall|j: int, d: Seq<char>| j < k implies !#[trigger] stores_class(a, f, dst, j, d) by {
                assert(!stores_class(b, f, dst, j, d));
            }
        }
    }
}

// ---------------------------------------------------------------------------
// Votes.

proof fn most_is_most<A>(votes: Seq<(A, usize)>, n: int)
    requires
        0 <= n <= votes.len(),
    ensures
        forall|i: int| 0 <= i < n ==> (#[trigger] votes[i]).1 <= structors::max_votes(votes, n),
        n > 0 ==> exists|i: int| 0 <= i < n && (#[trigger] votes[i]).1 == structors::max_votes(votes, n),
    decreases n,
{
    if n > 0 {
        most_is_most(votes, n - 1);
        assert(structors::max_votes(votes, 0) == 0);
        if votes[n - 1].1 <= structors::max_votes(votes, n - 1) && n > 1 {
            let i = choose|i: int| 0 <= i < n - 1 && (#[trigger] votes[i]).1 == structors::max_votes(votes, n - 1);
            assert(votes[i].1 == structors::max_votes(votes, n));
        } else {
            assert(votes[n - 1].1 == structors::max_votes(votes, n));
        }
    }
}

proof fn ranked_are<A: Ordered>(votes: Seq<(A, usize)>, max: usize, n: int, k: A, v: usize)
    requires
        0 <= n <= votes.len(),
    ensures
        table::ordered(structors::ranked(votes, max, n)),
        table::holds(structors::ranked(votes, max, n), ((usize::MAX - v) as usize, k)) <==> exists|i: int|
            0 <= i < n && #[trigger] votes[i] == (k, v) && v >= 3 && 4 * v >= max,
    decreases n,
{
    let key = ((usize::MAX - v) as usize, k);
    if n > 0 {
        ranked_are(votes, max, n - 1, k, v);
        let s = structors::ranked(votes, max, n - 1);
        let (a, b) = votes[n - 1];
        let other = ((usize::MAX - b) as usize, a);
        if structors::enough(b, max) {
            table::put_ordered(s, other, ());
            table::get_after_put(s, other, (), key);
            table::get_after_put(s, other, (), other);
        }
        if table::holds(structors::ranked(votes, max, n), key) {
            if key == other {
                assert(b == v);
                if !structors::enough(b, max) {
                    let i = choose|i: int| 0 <= i < n - 1 && #[trigger] votes[i] == (k, v) && v >= 3 && 4 * v >= max;
                    assert(votes[i] == (k, v));
                } else {
                    assert(votes[n - 1] == (k, v));
                }
            } else {
                assert(table::get(s, key) is Some);
                let i = choose|i: int| 0 <= i < n - 1 && #[trigger] votes[i] == (k, v) && v >= 3 && 4 * v >= max;
                assert(votes[i] == (k, v));
            }
        }
        if exists|i: int| 0 <= i < n && #[trigger] votes[i] == (k, v) && v >= 3 && 4 * v >= max {
            let i = choose|i: int| 0 <= i < n && #[trigger] votes[i] == (k, v) && v >= 3 && 4 * v >= max;
            if i < n - 1 {
                assert(votes[i] == (k, v));
                assert(table::holds(s, key));
                assert(table::get(s, key) is Some);
            } else {
                assert(other == key);
            }
        }
    } else {
        assert(structors::ranked(votes, max, n) =~= Seq::empty());
    }
}

/// What is believed to allocate or to delete has at least three votes and at
/// least a quarter of the most that anything has; nothing else is believed.
pub proof fn believed_have_votes<A: Ordered>(votes: Seq<(A, usize)>, k: A)
    requires
        table::ordered(votes),
    ensures
        structors::listed(structors::top(votes), k) <==> (table::get(votes, k) matches Some(v) && v >= 3 && forall|i: int|
            0 <= i < votes.len() ==> 4 * v >= (#[trigger] votes[i]).1),
{
    let n = votes.len() as int;
    let max = structors::max_votes(votes, n);
    let r = structors::ranked(votes, max, n);
    let t = structors::top(votes);
    most_is_most(votes, n);
    table::get_is_row(votes, k);
    if structors::listed(t, k) {
        let i = choose|i: int| 0 <= i < t.len() && (#[trigger] t[i]).0 == k;
        let v = t[i].1;
        ranked_are(votes, max, n, k, v);
        let key = r[i].0;
        assert(key == ((usize::MAX - v) as usize, k));
        <(usize, A)>::irreflexive(key);
        table::rank_is(r, key, 0, i);
        assert(table::holds(r, key));
        let j = choose|j: int| 0 <= j < n && #[trigger] votes[j] == (k, v) && v >= 3 && 4 * v >= max;
        A::irreflexive(k);
        table::rank_is(votes, k, 0, j);
        assert(table::get(votes, k) == Some(v));
    }
    if let Some(v) = table::get(votes, k) {
        if v >= 3 && forall|i: int| 0 <= i < votes.len() ==> 4 * v >= (#[trigger] votes[i]).1 {
            ranked_are(votes, max, n, k, v);
            let j = choose|j: int| 0 <= j < n && votes[j] == (k, v);
            let x = choose|x: int| 0 <= x < n && (#[trigger] votes[x]).1 == max;
            assert(4 * v >= votes[x].1);
            assert(votes[j] == (k, v));
            let key = ((usize::MAX - v) as usize, k);
            assert(table::holds(r, key));
            let q = table::rank(r, key);
            table::rank_bounds(r, key, 0);
            assert(t[q].0 == k);
        }
    }
}

/// A call in a deleting destructor that hands `this` and a believable size to a
/// function or an import.
pub open spec fn looks_like_delete(c: CallSite, t: Target) -> bool {
    c.target == t && (t is Direct || t is Import) && c.rcx == Val::This(0) && c.rdx is Const && 8 <= c.rdx->Const_0 <= 0x10_0000
}

/// How many of the first `n` calls look like that.
pub open spec fn deletes(calls: Seq<CallSite>, t: Target, n: int) -> int {
    calls.take(n).filter(|c: CallSite| looks_like_delete(c, t)).len() as int
}

/// Each call that looks like a delete is one vote for what it calls.
pub proof fn deletes_are_votes(votes: Seq<(Target, usize)>, calls: Seq<CallSite>, n: int, t: Target)
    requires
        table::ordered(votes),
        0 <= n <= calls.len(),
        table::count_at(votes, t) + n <= usize::MAX,
    ensures
        table::ordered(structors::delete_votes_in(votes, calls, n)),
        table::count_at(structors::delete_votes_in(votes, calls, n), t) == table::count_at(votes, t) + deletes(calls, t, n),
        deletes(calls, t, n) <= n,
    decreases n,
{
    reveal(Seq::filter);
    if n > 0 {
        deletes_are_votes(votes, calls, n - 1, t);
        let s = structors::delete_votes_in(votes, calls, n - 1);
        let c = calls[n - 1];
        assert(calls.take(n).drop_last() =~= calls.take(n - 1));
        table::put_ordered(s, c.target, table::count_at(s, c.target).wrapping_add(1));
        table::get_after_put(s, c.target, table::count_at(s, c.target).wrapping_add(1), t);
    } else {
        assert(calls.take(n) =~= Seq::empty());
    }
}

/// How many of the first `n` stores put a vtable at the start of an allocation
/// that function `a` made.
pub open spec fn filled(allocs: Seq<Allocation>, stores: Seq<VtStore>, a: u32, n: int) -> int {
    stores.take(n).filter(
        |v: VtStore|
            v.dst is Alloc && v.dst->Alloc_1 == 0 && v.dst->Alloc_0 < allocs.len() && allocs[v.dst->Alloc_0 as int].allocator
                == a,
    ).len() as int
}

/// Each vtable that is stored into a fresh allocation is one vote for what made
/// the allocation.
pub proof fn fillings_are_votes(votes: Seq<(u32, usize)>, allocs: Seq<Allocation>, stores: Seq<VtStore>, n: int, a: u32)
    requires
        table::ordered(votes),
        0 <= n <= stores.len(),
        table::count_at(votes, a) + n <= usize::MAX,
    ensures
        table::ordered(structors::new_votes_in(votes, allocs, stores, n)),
        table::count_at(structors::new_votes_in(votes, allocs, stores, n), a) == table::count_at(votes, a) + filled(
            allocs,
            stores,
            a,
            n,
        ),
        filled(allocs, stores, a, n) <= n,
    decreases n,
{
    reveal(Seq::filter);
    if n > 0 {
        fillings_are_votes(votes, allocs, stores, n - 1, a);
        let s = structors::new_votes_in(votes, allocs, stores, n - 1);
        assert(stores.take(n).drop_last() =~= stores.take(n - 1));
        if let Val::Alloc(id, o) = stores[n - 1].dst {
            if o == 0 && id < allocs.len() {
                let k = allocs[id as int].allocator;
                table::put_ordered(s, k, table::count_at(s, k).wrapping_add(1));
                table::get_after_put(s, k, table::count_at(s, k).wrapping_add(1), a);
            }
        }
    } else {
        assert(stores.take(n) =~= Seq::empty());
    }
}

// ---------------------------------------------------------------------------
// Sizes.

/// Call `k` hands `this` to a deleter, with a size.
pub open spec fn call_deletes(calls: Seq<CallSite>, deleters: Seq<(Target, usize)>, k: int, n: u64) -> bool {
    0 <= k < calls.len() && calls[k].rcx == Val::This(0) && calls[k].rdx == Val::Const(n) && exists|i: int|
        0 <= i < deleters.len() && (#[trigger] deleters[i]).0 == calls[k].target
}

/// The first size that a function hands to a deleter with `this`.
pub open spec fn deletes_size(calls: Seq<CallSite>, deleters: Seq<(Target, usize)>, n: u64) -> bool {
    exists|k: int| #[trigger]
        call_deletes(calls, deleters, k, n) && forall|j: int, x: u64| j < k ==> !#[trigger] call_deletes(calls, deleters, j, x)
}

proof fn deleted_is(calls: Seq<CallSite>, deleters: Seq<(Target, usize)>, i: int)
    requires
        0 <= i,
        forall|j: int, x: u64| j < i ==> !#[trigger] call_deletes(calls, deleters, j, x),
    ensures
        forall|n: u64|
            structors::deleted_size(calls, deleters, i) == Some(n) <==> #[trigger] deletes_size(calls, deleters, n),
    decreases calls.len() - i,
{
    if i < calls.len() {
        let c = calls[i];
        if structors::listed(deleters, c.target) {
            let q = choose|q: int| 0 <= q < deleters.len() && (#[trigger] deleters[q]).0 == c.target;
            assert(deleters[q].0 == c.target);
        }
        if c.rcx == Val::This(0) && c.rdx is Const && structors::listed(deleters, c.target) {
            let n = c.rdx->Const_0;
            assert(call_deletes(calls, deleters, i, n));
            assert forall|x: u64| Some(n) == Some(x) <==> #[trigger] deletes_size(calls, deleters, x) by {
                if deletes_size(calls, deleters, x) {
                    let k = choose|k: int| #[trigger]
                        call_deletes(calls, deleters, k, x) && forall|j: int, y: u64|
                            j < k ==> !#[trigger] call_deletes(calls, deleters, j, y);
                    assert(k == i);
                }
            }
        } else {
            assert forall|j: int, x: u64| j < i + 1 implies !#[trigger] call_deletes(calls, deleters, j, x) by {
                if j == i && call_deletes(calls, deleters, j, x) {
                    let q = choose|q: int| 0 <= q < deleters.len() && (#[trigger] deleters[q]).0 == calls[j].target;
                    assert(structors::listed(deleters, c.target));
                }
            }
            deleted_is(calls, deleters, i + 1);
        }
    } else {
        assert forall|n: u64| !#[trigger] deletes_size(calls, deleters, n) by {
            if deletes_size(calls, deleters, n) {
                let k = choose|k: int| #[trigger]
                    call_deletes(calls, deleters, k, n) && forall|j: int, y: u64|
                        j < k ==> !#[trigger] call_deletes(calls, deleters, j, y);
                assert(false);
            }
        }
    }
}

/// Entry `k` of a vtable leads to a deleting destructor: a function that gets
/// `this` as it is, looks at the bit of its argument and deletes `n` bytes.
pub open spec fn entry_deletes(m: ModuleV, deleters: Seq<(Target, usize)>, entries: Seq<u32>, k: int, t: u32, n: u64) -> bool {
    0 <= k < entries.len() && m.resolve_entry(entries[k]) == (t, 0i32) && (table::get(m.code.funcs, t) matches Some(f)
        && f.tests_arg_bit && deletes_size(f.calls, deleters, n))
}

proof fn first_deleting(m: ModuleV, entries: Seq<u32>, i: int, k: int, t: u32, n: u64)
    requires
        0 <= i <= k,
        entry_deletes(m, m.deleters, entries, k, t, n),
        forall|j: int, u: u32, x: u64| i <= j < k ==> !#[trigger] entry_deletes(m, m.deleters, entries, j, u, x),
    ensures
        structors::deleting_dtor(m, entries, i) == Some((t, n)),
    decreases k - i,
{
    let (u, delta) = m.resolve_entry(entries[i]);
    if let Some(f) = m.func(u) {
        assert forall|j: int, x: u64| j < 0 implies !#[trigger] call_deletes(f.calls, m.deleters, j, x) by {}
        deleted_is(f.calls, m.deleters, 0);
        if i < k && delta == 0 && f.tests_arg_bit {
            if let Some(x) = structors::deleted_size(f.calls, m.deleters, 0) {
                assert(deletes_size(f.calls, m.deleters, x));
                assert(entry_deletes(m, m.deleters, entries, i, u, x));
            }
        }
    }
    if i < k {
        first_deleting(m, entries, i + 1, k, t, n);
    }
}

/// The classes of a module are stored in order under their names.
pub open spec fn by_name(m: ModuleV) -> bool {
    table::ordered(m.rtti.classes) && forall|i: int|
        0 <= i < m.rtti.classes.len() ==> (#[trigger] m.rtti.classes[i]).0 == m.rtti.classes[i].1.name
}

proof fn delete_is_seen(m: ModuleV, n: int, i: int, t: u32, size: u64)
    requires
        by_name(m),
        table::ordered(m.dtors),
        table::ordered(m.scalar_dtors),
        0 <= n <= m.rtti.classes.len(),
        0 <= i < m.rtti.classes.len(),
        m.rtti.classes[i].1.primary_vtable() matches Some(v) && structors::deleting_dtor(m, v.entries, 0) == Some((t, size)),
    ensures
        ({
            let d = structors::dtors_of(m, n);
            let name = m.rtti.classes[i].1.name;
            &&& i < n ==> table::get(d.sizes, name) == Some(seq![(size, (1usize, "sized delete"@))]) && table::holds(d.scalar, t)
            &&& i >= n ==> table::get(d.sizes, name) is None
        }),
    decreases n,
{
    if n > 0 {
        delete_is_seen(m, n - 1, i, t, size);
        dtors_ordered(m, n - 1);
        let d = structors::dtors_of(m, n - 1);
        let c = m.rtti.classes[n - 1].1;
        let name = m.rtti.classes[i].1.name;
        assert(m.rtti.classes[i].0 == name && m.rtti.classes[n - 1].0 == c.name);
        if i != n - 1 {
            if i < n - 1 {
                <Seq<char>>::irreflexive(name);
            } else {
                <Seq<char>>::irreflexive(name);
            }
            assert(name != c.name);
        }
        if let Some(v) = c.primary_vtable() {
            if let Some((u, x)) = structors::deleting_dtor(m, v.entries, 0) {
                let o = table::list_at(d.sizes, c.name);
                let k = match table::get(o, x) {
                    Some(e) => e.0,
                    None => 0,
                };
                let w = table::put(o, x, (k.wrapping_add(1), "sized delete"@));
                table::get_after_put(d.sizes, c.name, w, name);
                table::get_after_put(d.scalar, u, c.name, t);
                if i == n - 1 {
                    assert(o =~= Seq::empty());
                    assert(w =~= seq![(size, (1usize, "sized delete"@))]);
                }
            }
        }
    } else {
        assert(structors::dtors_of(m, n).sizes =~= Seq::empty());
    }
}

/// Only one size is observed by sized deletes.
pub open spec fn deletes_only(o: Seq<(u64, (usize, Seq<char>))>, size: u64) -> bool {
    &&& table::ordered(o)
    &&& table::get(o, size) matches Some(e) && e.1 == "sized delete"@
    &&& forall|i: int| 0 <= i < o.len() && (#[trigger] o[i]).1.1 == "sized delete"@ ==> o[i].0 == size
}

proof fn new_keeps_deletes(obs: Sizes, cls: Seq<char>, x: u64, name: Seq<char>, size: u64)
    requires
        table::ordered(obs),
        table::get(obs, name) matches Some(o) && deletes_only(o, size),
    ensures
        table::ordered(structors::saw_new(obs, cls, x)),
        table::get(structors::saw_new(obs, cls, x), name) matches Some(o) && deletes_only(o, size),
{
    saw_ordered(obs, cls, x);
    let o = table::list_at(obs, cls);
    let (k, src) = match table::get(o, x) {
        Some(e) => e,
        None => (0, "operator new"@),
    };
    let w = table::put(o, x, (k.wrapping_add(1), src));
    table::get_after_put(obs, cls, w, name);
    reveal_strlit("sized delete");
    reveal_strlit("operator new");
    assert("sized delete"@[0] != "operator new"@[0]);
    if cls == name {
        table::put_ordered(o, x, (k.wrapping_add(1), src));
        table::get_after_put(o, x, (k.wrapping_add(1), src), size);
        table::rows_after_put(o, x, (k.wrapping_add(1), src));
        table::get_is_row(o, x);
        assert forall|i: int| 0 <= i < w.len() && (#[trigger] w[i]).1.1 == "sized delete"@ implies w[i].0 == size by {
            if o.contains(w[i]) {
                let j = choose|j: int| 0 <= j < o.len() && o[j] == w[i];
                assert(o[j].0 == size);
            } else if table::get(o, x) is Some {
                let j = choose|j: int| 0 <= j < o.len() && o[j] == (x, table::get(o, x).unwrap());
                assert(o[j].0 == size);
            }
        }
    }
}

proof fn allocations_keep_deletes(m: ModuleV, a: Allocated, f: FuncFactsV, n: int, name: Seq<char>, size: u64)
    requires
        table::ordered(a.sizes),
        table::get(a.sizes, name) matches Some(o) && deletes_only(o, size),
    ensures
        table::ordered(structors::allocated_in(m, a, f, n).sizes),
        table::get(structors::allocated_in(m, a, f, n).sizes, name) matches Some(o) && deletes_only(o, size),
    decreases n,
{
    if n > 0 {
        allocations_keep_deletes(m, a, f, n - 1, name, size);
        let s = structors::allocated_in(m, a, f, n - 1);
        if let Some(c) = structors::allocated_class(m, f, (n - 1) as u32) {
            new_keeps_deletes(s.sizes, c, f.allocs[n - 1].size, name, size);
        }
    }
}

proof fn functions_keep_deletes(m: ModuleV, sizes: Sizes, n: int, name: Seq<char>, size: u64)
    requires
        table::ordered(sizes),
        table::get(sizes, name) matches Some(o) && deletes_only(o, size),
    ensures
        table::ordered(structors::allocated(m, sizes, n).sizes),
        table::get(structors::allocated(m, sizes, n).sizes, name) matches Some(o) && deletes_only(o, size),
    decreases n,
{
    if n > 0 {
        functions_keep_deletes(m, sizes, n - 1, name, size);
        let f = m.code.funcs[n - 1].1;
        allocations_keep_deletes(m, structors::allocated(m, sizes, n - 1), f, f.allocs.len() as int, name, size);
    }
}

proof fn picked_sizes(sizes: Seq<(Seq<char>, SizeInfoV)>, obs: Sizes, n: int, i: int)
    requires
        table::ordered(sizes),
        table::ordered(obs),
        0 <= n <= obs.len(),
        0 <= i < obs.len(),
    ensures
        table::ordered(structors::sizes_picked(sizes, obs, n)),
        i < n ==> (structors::picked(obs[i].1) matches Some(o) ==> table::get(structors::sizes_picked(sizes, obs, n), obs[i].0)
            == Some(SizeInfoV { size: o.0, source: o.1.1, observed: obs[i].1 })),
    decreases n,
{
    if n > 0 {
        picked_sizes(sizes, obs, n - 1, i);
        let s = structors::sizes_picked(sizes, obs, n - 1);
        if let Some(o) = structors::picked(obs[n - 1].1) {
            let info = SizeInfoV { size: o.0, source: o.1.1, observed: obs[n - 1].1 };
            table::put_ordered(s, obs[n - 1].0, info);
            table::get_after_put(s, obs[n - 1].0, info, obs[i].0);
            if i < n - 1 {
                <Seq<char>>::irreflexive(obs[i].0);
            }
        }
    }
}

/// The size of a class whose deleting destructor deletes `size` bytes is that
/// size, and no allocation is believed over it: the destructor is the first
/// function that its primary vtable leads to which looks at the bit of its
/// argument and hands `this` to a deleter.
pub proof fn deleting_destructors_give_sizes(m: ModuleV, i: int, v: VtableV, k: int, t: u32, size: u64)
    requires
        by_name(m),
        table::ordered(m.dtors),
        table::ordered(m.scalar_dtors),
        table::ordered(m.sizes),
        0 <= i < m.rtti.classes.len(),
        m.rtti.classes[i].1.primary_vtable() == Some(v),
        entry_deletes(m, m.deleters_found(), v.entries, k, t, size),
        forall|j: int, u: u32, x: u64| j < k ==> !#[trigger] entry_deletes(m, m.deleters_found(), v.entries, j, u, x),
    ensures
        ({
            let r = m.structors_and_sizes_found();
            &&& table::get(r.sizes, m.rtti.classes[i].1.name) matches Some(s) && s.size == size && s.source == "sized delete"@
            &&& table::holds(r.scalar_dtors, t)
        }),
{
    let (a, b, c, d, e) = found_parts(m);
    let name = m.rtti.classes[i].1.name;
    let n = a.rtti.classes.len() as int;
    structors::resolve_independent(m, a, v.entries[k], 0, 4);
    assert(entry_deletes(a, a.deleters, v.entries, k, t, size));
    assert forall|j: int, u: u32, x: u64| 0 <= j < k implies !#[trigger] entry_deletes(a, a.deleters, v.entries, j, u, x) by {
        structors::resolve_independent(m, a, v.entries[j], 0, 4);
        assert(!entry_deletes(m, m.deleters_found(), v.entries, j, u, x));
    }
    first_deleting(a, v.entries, 0, k, t, size);
    delete_is_seen(a, n, i, t, size);
    dtors_ordered(a, n);
    let one = seq![(size, (1usize, "sized delete"@))];
    assert(table::get(one, size) == Some((1usize, "sized delete"@))) by {
        u64::irreflexive(size);
        table::rank_is(one, size, 0, 0);
    }
    assert(deletes_only(one, size));
    functions_keep_deletes(c, d.sizes, c.code.funcs.len() as int, name, size);
    let obs = e.sizes;
    table::rank_bounds(obs, name, 0);
    let q = table::rank(obs, name);
    picked_sizes(m.sizes, obs, obs.len() as int, q);
    let o = obs[q].1;
    structors::picked_was_observed(o);
    table::get_is_row(o, size);
    let w = choose|w: int| 0 <= w < o.len() && o[w] == (size, table::get(o, size).unwrap());
    assert(o[w].1.1 == "sized delete"@);
    let p = structors::picked(o).unwrap();
    let x = choose|x: int| 0 <= x < o.len() && o[x] == p;
    assert(o[x].1.1 == "sized delete"@);
}

// ---------------------------------------------------------------------------
// Allocations and singletons.

/// A call runs the constructor of class `c` on allocation `id`.
pub open spec fn call_constructs(ctors: Seq<(u32, Seq<char>)>, f: FuncFactsV, id: u32, j: int, c: Seq<char>) -> bool {
    0 <= j < f.calls.len() && f.calls[j].rcx == Val::Alloc(id, 0) && f.calls[j].target is Direct && table::get(
        ctors,
        f.calls[j].target->Direct_0,
    ) == Some(c)
}

/// Allocation `id` of a function may become an object of class `c`: its vtable
/// is stored there, or its constructor runs there.
pub open spec fn may_become(m: ModuleV, f: FuncFactsV, id: u32, c: Seq<char>) -> bool {
    (exists|k: int| #[trigger] stores_class(m, f, Val::Alloc(id, 0), k, c)) || (exists|j: int| #[trigger]
        call_constructs(m.ctors, f, id, j, c))
}

proof fn constructed_are(m: ModuleV, cands: Seq<Seq<char>>, f: FuncFactsV, id: u32, n: int, c: Seq<char>)
    requires
        0 <= n <= f.calls.len(),
    ensures
        structors::constructed(m, cands, f.calls, id, n).contains(c) <==> cands.contains(c) || exists|j: int|
            j < n && #[trigger] call_constructs(m.ctors, f, id, j, c),
    decreases n,
{
    if n > 0 {
        constructed_are(m, cands, f, id, n - 1, c);
        let b = structors::constructed(m, cands, f.calls, id, n - 1);
        let s = structors::constructed(m, cands, f.calls, id, n);
        let call = f.calls[n - 1];
        if s != b {
            let x = table::get(m.ctors, call.target->Direct_0).unwrap();
            assert(call_constructs(m.ctors, f, id, n - 1, x));
            pushed_has(b, x, c);
        } else {
            assert(!call_constructs(m.ctors, f, id, n - 1, c)) by {
                if call_constructs(m.ctors, f, id, n - 1, c) {
                    assert(s == b.push(c));
                    assert(s.len() == b.len() + 1);
                }
            }
        }
        if exists|j: int| j < n && #[trigger] call_constructs(m.ctors, f, id, j, c) {
            let j = choose|j: int| j < n && #[trigger] call_constructs(m.ctors, f, id, j, c);
            if j == n - 1 {
                assert(s == b.push(c));
                pushed_has(b, c, c);
            }
        }
        if exists|j: int| j < n - 1 && #[trigger] call_constructs(m.ctors, f, id, j, c) {
            let j = choose|j: int| j < n - 1 && #[trigger] call_constructs(m.ctors, f, id, j, c);
            assert(j < n && call_constructs(m.ctors, f, id, j, c));
        }
    }
}

proof fn pushed_has<A>(s: Seq<A>, x: A, b: A)
    ensures
        s.push(x).contains(b) <==> s.contains(b) || x == b,
{
    if s.contains(b) {
        let k = choose|k: int| 0 <= k < s.len() && s[k] == b;
        assert(s.push(x)[k] == b);
    }
    if x == b {
        assert(s.push(x)[s.len() as int] == b);
    }
    if s.push(x).contains(b) {
        let k = choose|k: int| 0 <= k < s.push(x).len() && s.push(x)[k] == b;
        if k < s.len() {
            assert(s[k] == b);
        }
    }
}

proof fn most_derived_is(m: ModuleV, cands: Seq<Seq<char>>, n: int)
    requires
        0 <= n <= cands.len(),
    ensures
        n == 0 <==> structors::most_derived(m, cands, n) is None,
        structors::most_derived(m, cands, n) matches Some(b) ==> cands.contains(b) && forall|i: int|
            0 <= i < n ==> m.base_count(#[trigger] cands[i]) <= m.base_count(b),
    decreases n,
{
    if n > 0 {
        most_derived_is(m, cands, n - 1);
    }
}

/// An allocation becomes an object of the most derived class that it may
/// become: no other of them has more bases.
pub proof fn allocations_become_the_most_derived(m: ModuleV, f: FuncFactsV, id: u32)
    ensures
        match structors::allocated_class(m, f, id) {
            Some(c) => may_become(m, f, id, c) && forall|d: Seq<char>| #[trigger]
                may_become(m, f, id, d) ==> bases_of(m, d) <= bases_of(m, c),
            None => forall|d: Seq<char>| !#[trigger] may_become(m, f, id, d),
        },
{
    let dst = Val::Alloc(id, 0);
    let n = f.vt_stores.len() as int;
    let a = structors::stored_classes(m, f.vt_stores, dst, n);
    let b = structors::constructed(m, a, f.calls, id, f.calls.len() as int);
    stored_are(m, f, dst, n);
    assert forall|c: Seq<char>| #[trigger] may_become(m, f, id, c) <==> b.contains(c) by {
        constructed_are(m, a, f, id, f.calls.len() as int, c);
        if a.contains(c) {
            let k = choose|k: int| k < n && #[trigger] stores_class(m, f, dst, k, c);
            assert(stores_class(m, f, dst, k, c));
        }
    }
    most_derived_is(m, b, b.len() as int);
    assert forall|d: Seq<char>| #[trigger] may_become(m, f, id, d) implies b.len() > 0 && (structors::allocated_class(
        m,
        f,
        id,
    ) matches Some(c) ==> bases_of(m, d) <= bases_of(m, c)) by {
        let i = choose|i: int| 0 <= i < b.len() && b[i] == d;
        assert(m.base_count(b[i]) == bases_of(m, d));
    }
}

/// How many bases a class has.
pub open spec fn bases_of(m: ModuleV, name: Seq<char>) -> nat {
    match table::get(m.rtti.classes, name) {
        Some(c) => c.all_bases.len(),
        None => 0,
    }
}

/// A size was observed for a class.
pub open spec fn was_seen(obs: Sizes, cls: Seq<char>, size: u64) -> bool {
    table::get(obs, cls) is Some && table::ordered(table::get(obs, cls).unwrap()) && table::get(
        table::get(obs, cls).unwrap(),
        size,
    ) is Some
}

pub open spec fn lists_ordered(obs: Sizes) -> bool {
    table::ordered(obs) && forall|c: Seq<char>| #[trigger] table::get(obs, c) is Some ==> table::ordered(
        table::get(obs, c).unwrap(),
    )
}

proof fn seen_grows(obs: Sizes, cls: Seq<char>, x: u64)
    requires
        lists_ordered(obs),
    ensures
        lists_ordered(structors::saw_new(obs, cls, x)),
        lists_ordered(structors::saw_delete(obs, cls, x)),
        was_seen(structors::saw_new(obs, cls, x), cls, x),
        forall|c: Seq<char>, y: u64| was_seen(obs, c, y) ==> #[trigger] was_seen(structors::saw_new(obs, cls, x), c, y),
{
    let o = table::list_at(obs, cls);
    let (k, src) = match table::get(o, x) {
        Some(e) => e,
        None => (0, "operator new"@),
    };
    let w = table::put(o, x, (k.wrapping_add(1), src));
    table::put_ordered(o, x, (k.wrapping_add(1), src));
    table::put_ordered(obs, cls, w);
    let t = structors::saw_new(obs, cls, x);
    table::get_after_put(obs, cls, w, cls);
    table::get_after_put(o, x, (k.wrapping_add(1), src), x);
    assert forall|c: Seq<char>| #[trigger] table::get(t, c) is Some implies table::ordered(table::get(t, c).unwrap()) by {
        table::get_after_put(obs, cls, w, c);
    }
    assert forall|c: Seq<char>, y: u64| was_seen(obs, c, y) implies #[trigger] was_seen(t, c, y) by {
        table::get_after_put(obs, cls, w, c);
        table::get_after_put(o, x, (k.wrapping_add(1), src), y);
    }
    let k2 = match table::get(o, x) {
        Some(e) => e.0,
        None => 0,
    };
    let w2 = table::put(o, x, (k2.wrapping_add(1), "sized delete"@));
    table::put_ordered(o, x, (k2.wrapping_add(1), "sized delete"@));
    table::put_ordered(obs, cls, w2);
    let t2 = structors::saw_delete(obs, cls, x);
    assert forall|c: Seq<char>| #[trigger] table::get(t2, c) is Some implies table::ordered(table::get(t2, c).unwrap()) by {
        table::get_after_put(obs, cls, w2, c);
    }
}

proof fn deletes_list_ordered(m: ModuleV, n: int)
    requires
        n <= m.rtti.classes.len(),
    ensures
        lists_ordered(structors::dtors_of(m, n).sizes),
    decreases n,
{
    if n > 0 {
        deletes_list_ordered(m, n - 1);
        let d = structors::dtors_of(m, n - 1);
        let c = m.rtti.classes[n - 1].1;
        if let Some(v) = c.primary_vtable() {
            if let Some((t, size)) = structors::deleting_dtor(m, v.entries, 0) {
                seen_grows(d.sizes, c.name, size);
            }
        }
    } else {
        assert(structors::dtors_of(m, n).sizes =~= Seq::empty());
    }
}

/// A global that a store of a function gives allocation `id` to.
pub open spec fn global_gets(f: FuncFactsV, id: u32, g: int, global: u32) -> bool {
    0 <= g < f.global_stores.len() && f.global_stores[g].global == global && f.global_stores[g].val == Val::Alloc(id, 0)
}

/// The singleton that a function shows by storing allocation `id` to a global.
pub open spec fn shows_singleton(m: ModuleV, f: FuncFactsV, id: int, g: int, s: SingletonV) -> bool {
    &&& 0 <= id < f.allocs.len() && structors::listed(m.allocators, f.allocs[id].allocator)
    &&& global_gets(f, id as u32, g, s.global)
    &&& s.accessor == f.start && s.size == f.allocs[id].size && s.class == structors::allocated_class(m, f, id as u32)
}

proof fn globals_are_listed(
    out: Seq<SingletonV>,
    class: Option<Seq<char>>,
    f: FuncFactsV,
    id: u32,
    size: u64,
    n: int,
    s: SingletonV,
)
    requires
        0 <= n <= f.global_stores.len(),
    ensures
        structors::stored_globally(out, class, f.global_stores, id, f.start, size, n).contains(s) <==> out.contains(s) || (
        s.class == class && s.accessor == f.start && s.size == size && exists|g: int|
            g < n && #[trigger] global_gets(f, id, g, s.global)),
    decreases n,
{
    if n > 0 {
        globals_are_listed(out, class, f, id, size, n - 1, s);
        let b = structors::stored_globally(out, class, f.global_stores, id, f.start, size, n - 1);
        let x = SingletonV { class, global: f.global_stores[n - 1].global, accessor: f.start, size };
        pushed_has(b, x, s);
        if f.global_stores[n - 1].val == Val::Alloc(id, 0) {
            assert(global_gets(f, id, n - 1, x.global));
        }
        if exists|g: int| g < n - 1 && #[trigger] global_gets(f, id, g, s.global) {
            let g = choose|g: int| g < n - 1 && #[trigger] global_gets(f, id, g, s.global);
            assert(g < n && global_gets(f, id, g, s.global));
        }
        if exists|g: int| g < n && #[trigger] global_gets(f, id, g, s.global) {
            let g = choose|g: int| g < n && #[trigger] global_gets(f, id, g, s.global);
            if g == n - 1 {
                assert(x.global == s.global);
            }
        }
    }
}

proof fn allocated_are(m: ModuleV, a: Allocated, f: FuncFactsV, n: int, s: SingletonV)
    requires
        0 <= n <= f.allocs.len() <= u32::MAX,
        lists_ordered(a.sizes),
    ensures
        ({
            let r = structors::allocated_in(m, a, f, n);
            &&& lists_ordered(r.sizes)
            &&& r.singletons.contains(s) <==> a.singletons.contains(s) || exists|id: int, g: int|
                id < n && #[trigger] shows_singleton(m, f, id, g, s)
            &&& forall|c: Seq<char>, y: u64| was_seen(a.sizes, c, y) ==> #[trigger] was_seen(r.sizes, c, y)
            &&& forall|id: int|
                0 <= id < n && structors::listed(m.allocators, f.allocs[id].allocator) ==> (
                #[trigger] structors::allocated_class(m, f, id as u32) matches Some(c) ==> was_seen(
                    r.sizes,
                    c,
                    f.allocs[id].size,
                ))
        }),
    decreases n,
{
    if n > 0 {
        allocated_are(m, a, f, n - 1, s);
        let b = structors::allocated_in(m, a, f, n - 1);
        let r = structors::allocated_in(m, a, f, n);
        let x = f.allocs[n - 1];
        let id = (n - 1) as u32;
        let class = structors::allocated_class(m, f, id);
        if structors::listed(m.allocators, x.allocator) {
            if let Some(c) = class {
                seen_grows(b.sizes, c, x.size);
            }
            globals_are_listed(b.singletons, class, f, id, x.size, f.global_stores.len() as int, s);
        }
        if exists|i: int, g: int| i < n - 1 && #[trigger] shows_singleton(m, f, i, g, s) {
            let (i, g) = choose|i: int, g: int| i < n - 1 && #[trigger] shows_singleton(m, f, i, g, s);
            assert(i < n && shows_singleton(m, f, i, g, s));
        }
        if exists|i: int, g: int| i < n && #[trigger] shows_singleton(m, f, i, g, s) {
            let (i, g) = choose|i: int, g: int| i < n && #[trigger] shows_singleton(m, f, i, g, s);
            if i == n - 1 {
                assert(g < f.global_stores.len() && global_gets(f, id, g, s.global));
            }
        }
        if r.singletons.contains(s) && !b.singletons.contains(s) {
            let g = choose|g: int| g < f.global_stores.len() && #[trigger] global_gets(f, id, g, s.global);
            assert(shows_singleton(m, f, n - 1, g, s));
        }
    }
}

proof fn all_allocated_are(m: ModuleV, sizes: Sizes, n: int, s: SingletonV)
    requires
        0 <= n <= m.code.funcs.len(),
        lists_ordered(sizes),
        forall|i: int| 0 <= i < m.code.funcs.len() ==> (#[trigger] m.code.funcs[i]).1.allocs.len() <= u32::MAX,
    ensures
        ({
            let r = structors::allocated(m, sizes, n);
            &&& lists_ordered(r.sizes)
            &&& r.singletons.contains(s) <==> exists|i: int, id: int, g: int|
                0 <= i < n && #[trigger] shows_singleton(m, m.code.funcs[i].1, id, g, s)
            &&& forall|i: int, id: int|
                0 <= i < n && 0 <= id < m.code.funcs[i].1.allocs.len() && structors::listed(
                    m.allocators,
                    m.code.funcs[i].1.allocs[id].allocator,
                ) ==> (#[trigger] structors::allocated_class(m, m.code.funcs[i].1, id as u32) matches Some(c) ==> was_seen(
                    r.sizes,
                    c,
                    m.code.funcs[i].1.allocs[id].size,
                ))
        }),
    decreases n,
{
    if n > 0 {
        all_allocated_are(m, sizes, n - 1, s);
        let b = structors::allocated(m, sizes, n - 1);
        let f = m.code.funcs[n - 1].1;
        assert(m.code.funcs[n - 1].1.allocs.len() <= u32::MAX);
        allocated_are(m, b, f, f.allocs.len() as int, s);
        let r = structors::allocated(m, sizes, n);
        if exists|i: int, id: int, g: int| 0 <= i < n - 1 && #[trigger] shows_singleton(m, m.code.funcs[i].1, id, g, s) {
            let (i, id, g) = choose|i: int, id: int, g: int|
                0 <= i < n - 1 && #[trigger] shows_singleton(m, m.code.funcs[i].1, id, g, s);
            assert(i < n && shows_singleton(m, m.code.funcs[i].1, id, g, s));
        }
        if exists|i: int, id: int, g: int| 0 <= i < n && #[trigger] shows_singleton(m, m.code.funcs[i].1, id, g, s) {
            let (i, id, g) = choose|i: int, id: int, g: int|
                0 <= i < n && #[trigger] shows_singleton(m, m.code.funcs[i].1, id, g, s);
            if i == n - 1 {
                assert(id < f.allocs.len() && shows_singleton(m, f, id, g, s));
            }
        }
        if r.singletons.contains(s) && !b.singletons.contains(s) {
            let (id, g) = choose|id: int, g: int| id < f.allocs.len() && #[trigger] shows_singleton(m, f, id, g, s);
            assert(shows_singleton(m, m.code.funcs[n - 1].1, id, g, s));
        }
    } else {
        assert(structors::allocated(m, sizes, n).singletons =~= Seq::empty());
    }
}

proof fn distinct_are(s: Seq<SingletonV>, n: int)
    requires
        0 <= n <= s.len(),
    ensures
        ({
            let d = structors::distinct(s, n);
            &&& forall|i: int| 0 <= i < d.len() ==> s.contains(#[trigger] d[i])
            &&& forall|k: int|
                0 <= k < n ==> exists|i: int|
                    0 <= i < d.len() && structors::same_singleton(#[trigger] d[i], #[trigger] s[k])
            &&& n > 0 ==> d.len() > 0
        }),
    decreases n,
{
    if n > 0 {
        distinct_are(s, n - 1);
        let b = structors::distinct(s, n - 1);
        let d = structors::distinct(s, n);
        assert forall|k: int| 0 <= k < n implies exists|i: int|
            0 <= i < d.len() && structors::same_singleton(#[trigger] d[i], #[trigger] s[k]) by {
            if k < n - 1 {
                let i = choose|i: int| 0 <= i < b.len() && structors::same_singleton(#[trigger] b[i], s[k]);
                assert(d[i] == b[i]);
            } else {
                assert(structors::same_singleton(d[d.len() - 1], s[k]));
            }
        }
        assert forall|i: int| 0 <= i < d.len() implies s.contains(#[trigger] d[i]) by {
            if i < b.len() {
                assert(d[i] == b[i]);
            } else {
                assert(d[i] == s[n - 1]);
            }
        }
    }
}

proof fn ordered_singletons_are(s: Seq<SingletonV>, x: SingletonV)
    requires
        s.len() <= usize::MAX,
    ensures
        structors::ordered_singletons(s).contains(x) ==> s.contains(x),
        s.contains(x) ==> exists|i: int|
            0 <= i < structors::ordered_singletons(s).len() && structors::same_singleton(
                #[trigger] structors::ordered_singletons(s)[i],
                x,
            ),
{
    let by = structors::singleton_keys(s);
    let same = |y: SingletonV| y;
    let o = table::sorted_by(by, s);
    table::sorting_keeps_values(by, s, same);
    assert(s.map_values(same) =~= s);
    assert(o.map_values(same) =~= o);
    s.to_multiset_ensures();
    o.to_multiset_ensures();
    assert(s.contains(x) == (s.to_multiset().count(x) > 0));
    assert(o.contains(x) == (o.to_multiset().count(x) > 0));
    distinct_are(o, o.len() as int);
    let d = structors::ordered_singletons(s);
    if d.contains(x) {
        let i = choose|i: int| 0 <= i < d.len() && d[i] == x;
        assert(o.contains(d[i]));
    }
    if s.contains(x) {
        let k = choose|k: int| 0 <= k < o.len() && o[k] == x;
        let i = choose|i: int| 0 <= i < d.len() && structors::same_singleton(#[trigger] d[i], o[k]);
        assert(structors::same_singleton(d[i], x));
    }
}

/// Few enough allocations and singletons to be counted.
pub open spec fn is_countable(m: ModuleV) -> bool {
    let b = m.structors_and_sizes_found();
    &&& forall|i: int| 0 <= i < m.code.funcs.len() ==> (#[trigger] m.code.funcs[i]).1.allocs.len() <= u32::MAX
    &&& structors::allocated(b, Seq::empty(), b.code.funcs.len() as int).singletons.len() <= usize::MAX
}

proof fn classes_are_independent(a: ModuleV, b: ModuleV, f: FuncFactsV, id: u32)
    requires
        a.rtti == b.rtti,
        a.ctors == b.ctors,
    ensures
        structors::allocated_class(a, f, id) == structors::allocated_class(b, f, id),
{
    let dst = Val::Alloc(id, 0);
    let n = f.vt_stores.len() as int;
    structors::stored_independent(a, b, f.vt_stores, dst, n);
    let s = structors::stored_classes(a, f.vt_stores, dst, n);
    constructed_independent(a, b, s, f.calls, id, f.calls.len() as int);
    let t = structors::constructed(a, s, f.calls, id, f.calls.len() as int);
    derived_independent(a, b, t, t.len() as int);
}

proof fn constructed_independent(a: ModuleV, b: ModuleV, s: Seq<Seq<char>>, calls: Seq<CallSite>, id: u32, n: int)
    requires
        a.ctors == b.ctors,
    ensures
        structors::constructed(a, s, calls, id, n) == structors::constructed(b, s, calls, id, n),
    decreases n,
{
    if n > 0 {
        constructed_independent(a, b, s, calls, id, n - 1);
    }
}

proof fn derived_independent(a: ModuleV, b: ModuleV, s: Seq<Seq<char>>, n: int)
    requires
        a.rtti == b.rtti,
    ensures
        structors::most_derived(a, s, n) == structors::most_derived(b, s, n),
    decreases n,
{
    if n > 0 {
        derived_independent(a, b, s, n - 1);
    }
}

proof fn allocated_independent(a: ModuleV, b: ModuleV, p: Allocated, q: Allocated, f: FuncFactsV, n: int)
    requires
        a.rtti == b.rtti,
        a.ctors == b.ctors,
        a.allocators == b.allocators,
        p.singletons == q.singletons,
    ensures
        structors::allocated_in(a, p, f, n).singletons == structors::allocated_in(b, q, f, n).singletons,
    decreases n,
{
    if n > 0 {
        allocated_independent(a, b, p, q, f, n - 1);
        classes_are_independent(a, b, f, (n - 1) as u32);
    }
}

proof fn all_allocated_independent(a: ModuleV, b: ModuleV, s: Sizes, t: Sizes, n: int)
    requires
        a.rtti == b.rtti,
        a.ctors == b.ctors,
        a.allocators == b.allocators,
        a.code == b.code,
    ensures
        structors::allocated(a, s, n).singletons == structors::allocated(b, t, n).singletons,
    decreases n,
{
    if n > 0 {
        all_allocated_independent(a, b, s, t, n - 1);
        let f = a.code.funcs[n - 1].1;
        allocated_independent(
            a,
            b,
            structors::allocated(a, s, n - 1),
            structors::allocated(b, t, n - 1),
            f,
            f.allocs.len() as int,
        );
    }
}

/// A global that is given a fresh allocation holds a singleton: the class is
/// what the allocation becomes, and the function that stores it the accessor.
/// Nothing else is a singleton.
pub proof fn singletons_are_stored_allocations(m: ModuleV, i: int, id: int, g: int, s: SingletonV)
    requires
        is_countable(m),
        table::ordered(m.dtors),
        table::ordered(m.scalar_dtors),
    ensures
        ({
            let r = m.structors_and_sizes_found();
            &&& 0 <= i < m.code.funcs.len() && shows_singleton(r, m.code.funcs[i].1, id, g, s) ==> exists|k: int|
                0 <= k < r.singletons.len() && structors::same_singleton(#[trigger] r.singletons[k], s)
            &&& r.singletons.contains(s) ==> exists|j: int, a: int, b: int|
                0 <= j < m.code.funcs.len() && #[trigger] shows_singleton(r, m.code.funcs[j].1, a, b, s)
        }),
{
    let (a, b, c, d, e) = found_parts(m);
    let r = m.structors_and_sizes_found();
    let n = m.code.funcs.len() as int;
    deletes_list_ordered(a, a.rtti.classes.len() as int);
    all_allocated_are(c, d.sizes, n, s);
    all_allocated_independent(r, c, Seq::empty(), d.sizes, n);
    ordered_singletons_are(e.singletons, s);
    if 0 <= i < n && shows_singleton(r, m.code.funcs[i].1, id, g, s) {
        classes_are_independent(r, c, m.code.funcs[i].1, id as u32);
        assert(shows_singleton(c, c.code.funcs[i].1, id, g, s));
    }
    if r.singletons.contains(s) {
        let (j, x, y) = choose|j: int, x: int, y: int| 0 <= j < n && #[trigger] shows_singleton(c, c.code.funcs[j].1, x, y, s);
        classes_are_independent(r, c, m.code.funcs[j].1, x as u32);
        assert(shows_singleton(r, m.code.funcs[j].1, x, y, s));
    }
}

/// The size of every allocation that becomes an object is observed for its
/// class, and the class has a size that was observed.
pub proof fn allocations_give_sizes(m: ModuleV, i: int, id: int, c: Seq<char>)
    requires
        is_countable(m),
        table::ordered(m.dtors),
        table::ordered(m.scalar_dtors),
        table::ordered(m.sizes),
        0 <= i < m.code.funcs.len(),
        0 <= id < m.code.funcs[i].1.allocs.len(),
        structors::listed(m.allocators_found(), m.code.funcs[i].1.allocs[id].allocator),
        structors::allocated_class(m.structors_and_sizes_found(), m.code.funcs[i].1, id as u32) == Some(c),
    ensures
        ({
            let r = m.structors_and_sizes_found();
            table::get(r.sizes, c) matches Some(s) && table::get(s.observed, m.code.funcs[i].1.allocs[id].size) is Some
                && table::get(s.observed, s.size) is Some
        }),
{
    let (a, b, cc, d, e) = found_parts(m);
    let r = m.structors_and_sizes_found();
    let n = m.code.funcs.len() as int;
    let f = m.code.funcs[i].1;
    deletes_list_ordered(a, a.rtti.classes.len() as int);
    let any = SingletonV { class: None, global: 0, accessor: 0, size: 0 };
    all_allocated_are(cc, d.sizes, n, any);
    classes_are_independent(r, cc, f, id as u32);
    assert(structors::allocated_class(cc, cc.code.funcs[i].1, id as u32) == Some(c));
    let obs = e.sizes;
    assert(was_seen(obs, c, f.allocs[id].size));
    table::rank_bounds(obs, c, 0);
    let q = table::rank(obs, c);
    picked_sizes(m.sizes, obs, obs.len() as int, q);
    let o = obs[q].1;
    assert(table::get(obs, c) == Some(o));
    structors::picked_was_observed(o);
    table::get_is_row(o, f.allocs[id].size);
    let p = structors::picked(o).unwrap();
    let x = choose|x: int| 0 <= x < o.len() && o[x] == p;
    u64::irreflexive(p.0);
    table::rank_is(o, p.0, 0, x);
}

} // verus!
