//! What holds of the owners of functions: whose methods they are, by their
//! constructors, vtables and callers.

use vstd::prelude::*;

use crate::analysis::{CallSite, FuncFactsV, Target, Val};
use crate::model::{ModuleV, OwnerSrc, OwnerV};
use crate::ownership;
use crate::ownership::{Candidates, Holders, Owners};
use crate::rtti::{BaseClassV, ClassV, VtableV};
use crate::structors;
use crate::table;

verus! {

// ---------------------------------------------------------------------------
// Vtables.

/// A class has a function in a vtable: entry `e` of vtable `v` leads to it, and
/// `this` is then `adj` behind the start of the object.
pub open spec fn holds_function(m: ModuleV, c: ClassV, v: int, e: int, f: u32, adj: i32) -> bool {
    &&& 0 <= v < c.vtables.len() && 0 <= e < c.vtables[v].entries.len()
    &&& m.entry_import(c.vtables[v].entries[e]) is None && m.entry_import(f) is None
    &&& m.resolve_entry(c.vtables[v].entries[e]).0 == f
    &&& adj == (c.vtables[v].offset as i32).wrapping_add(m.resolve_entry(c.vtables[v].entries[e]).1)
}

/// A holder is listed for a function.
pub open spec fn is_holder(hs: Holders, f: u32, name: Seq<char>, adj: i32) -> bool {
    table::list_at(hs, f).contains((name, adj))
}

pub(crate) proof fn pushed_lists<A>(s: Seq<A>, x: A, b: A)
    ensures
        s.push(x).contains(b) <==> s.contains(b) || x == b,
{
    if s.contains(b) {
        let k = choose|k: int| 0 <= k < s.len() && s[k] == b;
        assert(s.push(x)[k] == b);
    }
    if x == b {
        assert(s.push(x)[s.len() as int] == b);
    }
    if s.push(x).contains(b) {
        let k = choose|k: int| 0 <= k < s.push(x).len() && s.push(x)[k] == b;
        if k < s.len() {
            assert(s[k] == b);
        }
    }
}

proof fn entries_hold(m: ModuleV, hs: Holders, c: ClassV, v: int, n: int, f: u32, x: (Seq<char>, i32))
    requires
        table::ordered(hs),
        0 <= v < c.vtables.len(),
        0 <= n <= c.vtables[v].entries.len(),
    ensures
        ({
            let t = ownership::held_entries(m, hs, c.name, c.vtables[v], n);
            &&& table::ordered(t)
            &&& is_holder(t, f, x.0, x.1) <==> is_holder(hs, f, x.0, x.1) || (x.0 == c.name && exists|e: int|
                e < n && #[trigger] holds_function(m, c, v, e, f, x.1))
        }),
    decreases n,
{
    if n > 0 {
        entries_hold(m, hs, c, v, n - 1, f, x);
        let s = ownership::held_entries(m, hs, c.name, c.vtables[v], n - 1);
        let e = c.vtables[v].entries[n - 1];
        let (t, delta) = m.resolve_entry(e);
        let item = (c.name, (c.vtables[v].offset as i32).wrapping_add(delta));
        let list = table::list_at(s, t).push(item);
        table::put_ordered(s, t, list);
        table::get_after_put(s, t, list, f);
        pushed_lists(table::list_at(s, t), item, x);
        if m.entry_import(e) is None && m.entry_import(t) is None {
            assert(holds_function(m, c, v, n - 1, t, item.1));
        }
        if exists|k: int| k < n - 1 && #[trigger] holds_function(m, c, v, k, f, x.1) {
            let k = choose|k: int| k < n - 1 && #[trigger] holds_function(m, c, v, k, f, x.1);
            assert(k < n && holds_function(m, c, v, k, f, x.1));
        }
        if exists|k: int| k < n && #[trigger] holds_function(m, c, v, k, f, x.1) {
            let k = choose|k: int| k < n && #[trigger] holds_function(m, c, v, k, f, x.1);
            if k == n - 1 {
                assert(t == f);
            }
        }
    }
}

proof fn vtables_hold(m: ModuleV, hs: Holders, c: ClassV, n: int, f: u32, x: (Seq<char>, i32))
    requires
        table::ordered(hs),
        0 <= n <= c.vtables.len(),
    ensures
        ({
            let t = ownership::held_vtables(m, hs, c, n);
            &&& table::ordered(t)
            &&& is_holder(t, f, x.0, x.1) <==> is_holder(hs, f, x.0, x.1) || (x.0 == c.name && exists|v: int, e: int|
                v < n && #[trigger] holds_function(m, c, v, e, f, x.1))
        }),
    decreases n,
{
    if n > 0 {
        vtables_hold(m, hs, c, n - 1, f, x);
        let s = ownership::held_vtables(m, hs, c, n - 1);
        entries_hold(m, s, c, n - 1, c.vtables[n - 1].entries.len() as int, f, x);
        if exists|v: int, e: int| v < n - 1 && #[trigger] holds_function(m, c, v, e, f, x.1) {
            let (v, e) = choose|v: int, e: int| v < n - 1 && #[trigger] holds_function(m, c, v, e, f, x.1);
            assert(v < n && holds_function(m, c, v, e, f, x.1));
        }
        if exists|v: int, e: int| v < n && #[trigger] holds_function(m, c, v, e, f, x.1) {
            let (v, e) = choose|v: int, e: int| v < n && #[trigger] holds_function(m, c, v, e, f, x.1);
            if v == n - 1 {
                assert(e < c.vtables[n - 1].entries.len() && holds_function(m, c, n - 1, e, f, x.1));
            }
        }
        if exists|e: int| e < c.vtables[n - 1].entries.len() && #[trigger] holds_function(m, c, n - 1, e, f, x.1) {
            let e = choose|e: int| e < c.vtables[n - 1].entries.len() && #[trigger] holds_function(m, c, n - 1, e, f, x.1);
            assert(n - 1 < n && holds_function(m, c, n - 1, e, f, x.1));
        }
    }
}

/// A class of the module has a function in one of its vtables.
pub open spec fn class_holds(m: ModuleV, i: int, f: u32, x: (Seq<char>, i32)) -> bool {
    0 <= i < m.rtti.classes.len() && x.0 == m.rtti.classes[i].1.name && exists|v: int, e: int| #[trigger]
        holds_function(m, m.rtti.classes[i].1, v, e, f, x.1)
}

proof fn holders_are(m: ModuleV, n: int, f: u32, x: (Seq<char>, i32))
    requires
        0 <= n <= m.rtti.classes.len(),
    ensures
        table::ordered(ownership::holders(m, n)),
        is_holder(ownership::holders(m, n), f, x.0, x.1) <==> exists|i: int| i < n && #[trigger] class_holds(m, i, f, x),
    decreases n,
{
    if n > 0 {
        holders_are(m, n - 1, f, x);
        let c = m.rtti.classes[n - 1].1;
        let s = ownership::holders(m, n - 1);
        vtables_hold(m, s, c, c.vtables.len() as int, f, x);
        if exists|i: int| i < n - 1 && #[trigger] class_holds(m, i, f, x) {
            let i = choose|i: int| i < n - 1 && #[trigger] class_holds(m, i, f, x);
            assert(i < n && class_holds(m, i, f, x));
        }
        if exists|i: int| i < n && #[trigger] class_holds(m, i, f, x) {
            let i = choose|i: int| i < n && #[trigger] class_holds(m, i, f, x);
            if i == n - 1 {
                let (v, e) = choose|v: int, e: int| #[trigger] holds_function(m, c, v, e, f, x.1);
                assert(v < c.vtables.len() && holds_function(m, c, v, e, f, x.1));
            }
        }
        if x.0 == c.name && exists|v: int, e: int| v < c.vtables.len() && #[trigger] holds_function(m, c, v, e, f, x.1) {
            let (v, e) = choose|v: int, e: int| v < c.vtables.len() && #[trigger] holds_function(m, c, v, e, f, x.1);
            assert(holds_function(m, c, v, e, f, x.1));
            assert(class_holds(m, n - 1, f, x));
        }
    } else {
        assert(ownership::holders(m, n) =~= Seq::empty());
        assert(!table::holds(ownership::holders(m, n), f));
        assert(table::list_at(ownership::holders(m, n), f) =~= Seq::empty());
    }
}

proof fn base_holder_is(m: ModuleV, hs: Seq<(Seq<char>, i32)>, i: int)
    requires
        0 <= i,
    ensures
        ownership::base_holder(m, hs, i) matches Some(x) ==> hs.contains(x) && forall|j: int|
            0 <= j < hs.len() ==> m.is_ancestor(x.0, (#[trigger] hs[j]).0),
        ownership::base_holder(m, hs, i) is None ==> forall|k: int| i <= k < hs.len() ==> !#[trigger] ownership::covers(m, hs, k),
    decreases hs.len() - i,
{
    if i < hs.len() {
        base_holder_is(m, hs, i + 1);
        if ownership::covers(m, hs, i) {
            assert(hs.contains(hs[i]));
        }
    }
}

proof fn vtable_owners_are(m: ModuleV, hs: Holders, n: int, f: u32)
    requires
        table::ordered(hs),
        0 <= n <= hs.len(),
    ensures
        table::ordered(ownership::vtable_owners(m, hs, n)),
        table::get(ownership::vtable_owners(m, hs, n), f) matches Some(o) ==> o.source == OwnerSrc::Vtable
            && ownership::base_holder(m, table::list_at(hs, f), 0) == Some((o.class, o.adj)),
        table::rank(hs, f) < n && table::holds(hs, f) ==> (ownership::base_holder(m, table::list_at(hs, f), 0) matches Some(x)
            ==> table::get(ownership::vtable_owners(m, hs, n), f) is Some),
    decreases n,
{
    table::rank_bounds(hs, f, 0);
    if n > 0 {
        vtable_owners_are(m, hs, n - 1, f);
        let s = ownership::vtable_owners(m, hs, n - 1);
        let (g, list) = hs[n - 1];
        <u32 as table::Ordered>::irreflexive(g);
        table::rank_is(hs, g, 0, n - 1);
        if let Some((class, adj)) = ownership::base_holder(m, list, 0) {
            let o = OwnerV { class, adj, source: OwnerSrc::Vtable };
            table::put_ordered(s, g, o);
            table::get_after_put(s, g, o, f);
        }
    } else {
        assert(ownership::vtable_owners(m, hs, n) =~= Seq::empty());
    }
}

/// A function that vtables hold belongs to the class among their classes that
/// all the others descend from, and `this` is where that class's vtable says.
pub proof fn virtual_functions_belong_to_the_base(m: ModuleV, f: u32)
    ensures
        ({
            let hs = ownership::holders(m, m.rtti.classes.len() as int);
            table::get(ownership::vtable_owners(m, hs, hs.len() as int), f) matches Some(o) ==> {
                &&& exists|i: int| #[trigger] class_holds(m, i, f, (o.class, o.adj))
                &&& forall|i: int, x: (Seq<char>, i32)| #[trigger] class_holds(m, i, f, x) ==> m.is_ancestor(o.class, x.0)
            }
        }),
        ({
            let hs = ownership::holders(m, m.rtti.classes.len() as int);
            forall|i: int, x: (Seq<char>, i32)|
                #[trigger] class_holds(m, i, f, x) && (forall|j: int, y: (Seq<char>, i32)| #[trigger]
                    class_holds(m, j, f, y) ==> m.is_ancestor(x.0, y.0)) ==> table::get(
                    ownership::vtable_owners(m, hs, hs.len() as int),
                    f,
                ) is Some
        }),
{
    let n = m.rtti.classes.len() as int;
    let hs = ownership::holders(m, n);
    let list = table::list_at(hs, f);
    holders_are(m, n, f, (Seq::empty(), 0i32));
    vtable_owners_are(m, hs, hs.len() as int, f);
    base_holder_is(m, list, 0);
    table::rank_bounds(hs, f, 0);
    let owners = ownership::vtable_owners(m, hs, hs.len() as int);
    if let Some(o) = table::get(owners, f) {
        holders_are(m, n, f, (o.class, o.adj));
        let i = choose|i: int| i < n && #[trigger] class_holds(m, i, f, (o.class, o.adj));
        assert(class_holds(m, i, f, (o.class, o.adj)));
        assert forall|j: int, x: (Seq<char>, i32)| #[trigger] class_holds(m, j, f, x) implies m.is_ancestor(o.class, x.0) by {
            holders_are(m, n, f, x);
            assert(list.contains(x));
            let k = choose|k: int| 0 <= k < list.len() && list[k] == x;
            assert(m.is_ancestor(o.class, list[k].0));
        }
    }
    assert forall|i: int, x: (Seq<char>, i32)|
        #[trigger] class_holds(m, i, f, x) && (forall|j: int, y: (Seq<char>, i32)| #[trigger]
            class_holds(m, j, f, y) ==> m.is_ancestor(x.0, y.0)) implies table::get(owners, f) is Some by {
        holders_are(m, n, f, x);
        let k = choose|k: int| 0 <= k < list.len() && list[k] == x;
        assert forall|j: int| 0 <= j < list.len() implies m.is_ancestor(list[k].0, (#[trigger] list[j]).0) by {
            holders_are(m, n, f, list[j]);
            assert(list.contains(list[j]));
            let q = choose|q: int| q < n && #[trigger] class_holds(m, q, f, list[j]);
            assert(class_holds(m, q, f, list[j]));
        }
        assert(ownership::covers(m, list, k));
    }
}

// ---------------------------------------------------------------------------
// Constructors.

proof fn structors_own(owners: Owners, list: Seq<(u32, Seq<char>)>, n: int, f: u32)
    requires
        table::ordered(owners),
        table::ordered(list),
        0 <= n <= list.len(),
    ensures
        ({
            let r = ownership::structor_owners(owners, list, n);
            let was = table::get(owners, f);
            &&& table::ordered(r)
            &&& was is Some && was.unwrap().source.rank() >= 2 ==> table::get(r, f) == was
            &&& (was is None || was.unwrap().source.rank() < 2) && table::holds(list, f) && table::rank(list, f) < n ==> table::get(
                r,
                f,
            ) == Some(OwnerV { class: table::get(list, f).unwrap(), adj: 0, source: OwnerSrc::Structor })
            &&& !(table::holds(list, f) && table::rank(list, f) < n) ==> table::get(r, f) == was
        }),
    decreases n,
{
    table::rank_bounds(list, f, 0);
    if n > 0 {
        structors_own(owners, list, n - 1, f);
        let s = ownership::structor_owners(owners, list, n - 1);
        let (g, c) = list[n - 1];
        let o = OwnerV { class: c, adj: 0, source: OwnerSrc::Structor };
        <u32 as table::Ordered>::irreflexive(g);
        table::rank_is(list, g, 0, n - 1);
        table::put_ordered(s, g, o);
        table::get_after_put(s, g, o, f);
    }
}

/// A constructor belongs to its class, unless its name says otherwise, and gets
/// `this` at the start of the object; so does a destructor.
pub proof fn structors_belong_to_their_class(owners: Owners, ctors: Seq<(u32, Seq<char>)>, f: u32, c: Seq<char>)
    requires
        table::ordered(owners),
        table::ordered(ctors),
        table::get(ctors, f) == Some(c),
        table::get(owners, f) matches Some(o) ==> o.source == OwnerSrc::Vtable || o.source == OwnerSrc::Propagated,
    ensures
        table::get(ownership::structor_owners(owners, ctors, ctors.len() as int), f) == Some(
            OwnerV { class: c, adj: 0, source: OwnerSrc::Structor },
        ),
{
    table::rank_bounds(ctors, f, 0);
    structors_own(owners, ctors, ctors.len() as int, f);
}

// ---------------------------------------------------------------------------
// Callers.

/// A class is that of the subobject at an offset: the class itself at the
/// start, elsewhere a base that lies there and is not virtual.
pub open spec fn lies_at(m: ModuleV, class: Seq<char>, at: int, c: Seq<char>) -> bool {
    if at == 0 {
        c == class
    } else {
        table::get(m.rtti.classes, class) matches Some(k) && exists|i: int|
            0 <= i < k.all_bases.len() && (#[trigger] k.all_bases[i]).name == c && k.all_bases[i].mdisp == at
                && k.all_bases[i].pdisp == -1
    }
}

proof fn base_at_is(bases: Seq<BaseClassV>, at: i32, i: int)
    requires
        0 <= i,
    ensures
        ownership::base_at(bases, at, i) matches Some(c) ==> exists|k: int|
            0 <= k < bases.len() && (#[trigger] bases[k]).name == c && bases[k].mdisp == at && bases[k].pdisp == -1,
        ownership::base_at(bases, at, i) is None ==> forall|k: int|
            i <= k < bases.len() ==> !((#[trigger] bases[k]).mdisp == at && bases[k].pdisp == -1),
    decreases bases.len() - i,
{
    if i < bases.len() {
        base_at_is(bases, at, i + 1);
        if bases[i].mdisp == at && bases[i].pdisp == -1 {
            assert(bases[i].name == bases[i].name);
        }
    }
}

/// A method that hands `this` on, moved by `k`, calls a method of the subobject
/// there: that class is a candidate for the function called, and every
/// candidate comes from such a call.
pub proof fn callers_give_candidates(m: ModuleV, cands: Candidates, o: OwnerV, calls: Seq<CallSite>, n: int, g: u32, c: Seq<char>)
    requires
        table::ordered(cands),
        0 <= n <= calls.len(),
    ensures
        table::ordered(ownership::called_on(m, cands, o, calls, n)),
        table::list_at(ownership::called_on(m, cands, o, calls, n), g).contains(c) ==> table::list_at(cands, g).contains(c)
            || exists|j: int| #[trigger] hands_on(m, o, calls, j, g, c) && j < n,
        table::list_at(cands, g).contains(c) ==> table::list_at(ownership::called_on(m, cands, o, calls, n), g).contains(c),
        forall|j: int|
            0 <= j < n && (#[trigger] calls[j]).target == Target::Direct(g) && calls[j].rcx is This && ownership::takes_this(m, g)
                && (o.adj.wrapping_add(calls[j].rcx->This_0) == 0 && c == o.class) ==> table::list_at(
                ownership::called_on(m, cands, o, calls, n),
                g,
            ).contains(c),
    decreases n,
{
    if n > 0 {
        callers_give_candidates(m, cands, o, calls, n - 1, g, c);
        let s = ownership::called_on(m, cands, o, calls, n - 1);
        let t = ownership::called_on(m, cands, o, calls, n);
        let call = calls[n - 1];
        if call.target is Direct && call.rcx is This {
            let h = call.target->Direct_0;
            let k = call.rcx->This_0;
            let at = o.adj.wrapping_add(k);
            if let Some(d) = ownership::class_at(m, o.class, at) {
                if let Some(cl) = m.rtti.class(o.class) {
                    base_at_is(cl.all_bases, at, 0);
                }
                assert(lies_at(m, o.class, at as int, d));
                let list = table::list_at(s, h).push(d);
                table::put_ordered(s, h, list);
                table::get_after_put(s, h, list, g);
                pushed_lists(table::list_at(s, h), d, c);
                if ownership::takes_this(m, h) && h == g && d == c {
                    assert(hands_on(m, o, calls, n - 1, g, c));
                }
            }
        }
        if exists|j: int| #[trigger] hands_on(m, o, calls, j, g, c) && j < n - 1 {
            let j = choose|j: int| #[trigger] hands_on(m, o, calls, j, g, c) && j < n - 1;
            assert(hands_on(m, o, calls, j, g, c) && j < n);
        }
    }
}

/// Call `j` hands `this`, moved, to a function that takes it, and class `c` lies
/// there.
pub open spec fn hands_on(m: ModuleV, o: OwnerV, calls: Seq<CallSite>, j: int, g: u32, c: Seq<char>) -> bool {
    0 <= j < calls.len() && calls[j].target == Target::Direct(g) && calls[j].rcx is This && ownership::takes_this(m, g) && lies_at(
        m,
        o.class,
        o.adj.wrapping_add(calls[j].rcx->This_0) as int,
        c,
    )
}

/// A class is another, or a base of it that lies at its start and is not
/// virtual.
pub open spec fn starts(m: ModuleV, class: Seq<char>, c: Seq<char>) -> bool {
    c == class || (table::get(m.rtti.classes, class) matches Some(k) && exists|i: int|
        0 <= i < k.all_bases.len() && (#[trigger] k.all_bases[i]).name == c && k.all_bases[i].mdisp == 0
            && k.all_bases[i].pdisp == -1)
}

proof fn front_are(list: Seq<Seq<char>>, bases: Seq<BaseClassV>, n: int, c: Seq<char>)
    requires
        0 <= n <= bases.len(),
    ensures
        ownership::front_bases(list, bases, n).contains(c) <==> list.contains(c) || exists|i: int|
            0 <= i < n && (#[trigger] bases[i]).name == c && bases[i].mdisp == 0 && bases[i].pdisp == -1,
    decreases n,
{
    if n > 0 {
        front_are(list, bases, n - 1, c);
        pushed_lists(ownership::front_bases(list, bases, n - 1), bases[n - 1].name, c);
    }
}

proof fn chain_is(m: ModuleV, class: Seq<char>, c: Seq<char>)
    ensures
        ownership::chain(m, class).contains(c) <==> starts(m, class, c),
{
    assert(seq![class].contains(c) <==> c == class) by {
        assert(seq![class][0] == class);
    }
    if let Some(k) = m.rtti.class(class) {
        front_are(seq![class], k.all_bases, k.all_bases.len() as int, c);
    }
}

proof fn shared_are(m: ModuleV, cands: Seq<Seq<char>>, list: Seq<Seq<char>>, n: int, c: Seq<char>)
    requires
        0 <= n <= list.len(),
    ensures
        ownership::shared_of(m, cands, list, n).contains(c) <==> list.take(n).contains(c) && ownership::shared(m, cands, c),
    decreases n,
{
    if n > 0 {
        shared_are(m, cands, list, n - 1, c);
        assert(list.take(n) =~= list.take(n - 1).push(list[n - 1]));
        pushed_lists(list.take(n - 1), list[n - 1], c);
        pushed_lists(ownership::shared_of(m, cands, list, n - 1), list[n - 1], c);
    } else {
        assert(list.take(n) =~= Seq::empty());
    }
}

proof fn most_bases(m: ModuleV, cands: Seq<Seq<char>>, n: int)
    requires
        0 <= n <= cands.len(),
    ensures
        n == 0 <==> structors::most_derived(m, cands, n) is None,
        structors::most_derived(m, cands, n) matches Some(b) ==> cands.contains(b) && forall|i: int|
            0 <= i < n ==> m.base_count(#[trigger] cands[i]) <= m.base_count(b),
    decreases n,
{
    if n > 0 {
        most_bases(m, cands, n - 1);
    }
}

/// A class starts every candidate.
pub open spec fn starts_all(m: ModuleV, cands: Seq<Seq<char>>, c: Seq<char>) -> bool {
    forall|i: int| 0 <= i < cands.len() ==> starts(m, #[trigger] cands[i], c)
}

/// A function that is called on several classes belongs to the most derived
/// class that starts all of them; to none where there is no such class.
pub proof fn callers_share_an_ancestor(m: ModuleV, cands: Seq<Seq<char>>)
    requires
        cands.len() > 0,
    ensures
        match ownership::common_ancestor(m, cands) {
            Some(a) => starts_all(m, cands, a) && forall|c: Seq<char>| #[trigger]
                starts_all(m, cands, c) ==> m.base_count(c) <= m.base_count(a),
            None => forall|c: Seq<char>| !#[trigger] starts_all(m, cands, c),
        },
{
    let first = ownership::chain(m, cands[0]);
    let common = ownership::shared_of(m, cands, first, first.len() as int);
    most_bases(m, common, common.len() as int);
    assert(first.take(first.len() as int) =~= first);
    assert forall|c: Seq<char>| #[trigger] starts_all(m, cands, c) <==> common.contains(c) by {
        shared_are(m, cands, first, first.len() as int, c);
        chain_is(m, cands[0], c);
        if starts_all(m, cands, c) {
            assert(starts(m, cands[0], c));
            assert forall|i: int| 1 <= i < cands.len() implies ownership::chain(m, #[trigger] cands[i]).contains(c) by {
                chain_is(m, cands[i], c);
            }
        }
        if common.contains(c) {
            assert forall|i: int| 0 <= i < cands.len() implies starts(m, #[trigger] cands[i], c) by {
                chain_is(m, cands[i], c);
            }
        }
    }
    assert forall|c: Seq<char>| #[trigger] starts_all(m, cands, c) implies common.len() > 0 && (ownership::common_ancestor(
        m,
        cands,
    ) matches Some(a) ==> m.base_count(c) <= m.base_count(a)) by {
        let i = choose|i: int| 0 <= i < common.len() && common[i] == c;
        assert(m.base_count(common[i]) == m.base_count(c));
    }
}

// ---------------------------------------------------------------------------
// Rounds of propagation.

/// A round gives every function with candidates the class that they share,
/// unless a vtable, a constructor or a name says whose it is; it leaves every
/// other function alone.
pub proof fn rounds_follow_callers(m: ModuleV, owners: Owners, cands: Candidates, n: int, g: u32)
    requires
        table::ordered(owners),
        table::ordered(cands),
        0 <= n <= cands.len(),
    ensures
        ({
            let r = ownership::adopted(m, owners, cands, n).0;
            let was = table::get(owners, g);
            let sure = was is Some && was.unwrap().source != OwnerSrc::Propagated;
            let turn = table::holds(cands, g) && table::rank(cands, g) < n;
            &&& table::ordered(r)
            &&& sure || !turn ==> table::get(r, g) == was
            &&& turn && !sure ==> match ownership::common_ancestor(m, table::list_at(cands, g)) {
                Some(a) => table::get(r, g) matches Some(o) && o.class == a && o.source == OwnerSrc::Propagated && (was is None
                    || was.unwrap().class != a ==> o.adj == 0),
                None => table::get(r, g) == was,
            }
        }),
    decreases n,
{
    table::rank_bounds(cands, g, 0);
    if n > 0 {
        rounds_follow_callers(m, owners, cands, n - 1, g);
        let s = ownership::adopted(m, owners, cands, n - 1).0;
        let (h, cs) = cands[n - 1];
        <u32 as table::Ordered>::irreflexive(h);
        table::rank_is(cands, h, 0, n - 1);
        if let Some(class) = ownership::common_ancestor(m, cs) {
            let o = OwnerV { class, adj: 0, source: OwnerSrc::Propagated };
            table::put_ordered(s, h, o);
            table::get_after_put(s, h, o, g);
        }
    }
}

proof fn candidates_keep(m: ModuleV, s: Candidates, o: OwnerV, calls: Seq<CallSite>, n: int, g: u32, c: Seq<char>)
    requires
        table::ordered(s),
        0 <= n <= calls.len(),
    ensures
        forall|j: int|
            #[trigger] hands_on_first(m, o, calls, j, g, c) && j < n ==> table::list_at(
                ownership::called_on(m, s, o, calls, n),
                g,
            ).contains(c),
    decreases n,
{
    if n > 0 {
        candidates_keep(m, s, o, calls, n - 1, g, c);
        callers_give_candidates(m, s, o, calls, n - 1, g, c);
        let b = ownership::called_on(m, s, o, calls, n - 1);
        let call = calls[n - 1];
        if call.target is Direct && call.rcx is This {
            let h = call.target->Direct_0;
            let at = o.adj.wrapping_add(call.rcx->This_0);
            if let Some(d) = ownership::class_at(m, o.class, at) {
                let list = table::list_at(b, h).push(d);
                table::put_ordered(b, h, list);
                table::get_after_put(b, h, list, g);
                pushed_lists(table::list_at(b, h), d, c);
                if hands_on_first(m, o, calls, n - 1, g, c) {
                    if let Some(k) = m.rtti.class(o.class) {
                        if at != 0 {
                            first_base_at(k.all_bases, at, 0, c);
                        }
                    }
                }
            } else if hands_on_first(m, o, calls, n - 1, g, c) && at != 0 {
                let k = m.rtti.class(o.class).unwrap();
                first_base_at(k.all_bases, at, 0, c);
            }
        }
    }
}

/// Call `j` hands `this`, moved, to a function that takes it, and class `c` is
/// the first that lies there.
pub open spec fn hands_on_first(m: ModuleV, o: OwnerV, calls: Seq<CallSite>, j: int, g: u32, c: Seq<char>) -> bool {
    let at = o.adj.wrapping_add(calls[j].rcx->This_0);
    &&& 0 <= j < calls.len() && calls[j].target == Target::Direct(g) && calls[j].rcx is This && ownership::takes_this(m, g)
    &&& if at == 0 {
        c == o.class
    } else {
        table::get(m.rtti.classes, o.class) matches Some(k) && is_first_at(k.all_bases, at, c)
    }
}

/// The first of the bases at an offset that are not virtual.
pub open spec fn is_first_at(bases: Seq<BaseClassV>, at: i32, c: Seq<char>) -> bool {
    exists|i: int| #[trigger]
        sits(bases, i, at) && bases[i].name == c && forall|j: int| j < i ==> !#[trigger] sits(bases, j, at)
}

pub open spec fn sits(bases: Seq<BaseClassV>, i: int, at: i32) -> bool {
    0 <= i < bases.len() && bases[i].mdisp == at && bases[i].pdisp == -1
}

proof fn first_base_at(bases: Seq<BaseClassV>, at: i32, from: int, c: Seq<char>)
    requires
        0 <= from,
        forall|j: int| j < from ==> !#[trigger] sits(bases, j, at),
        is_first_at(bases, at, c),
    ensures
        ownership::base_at(bases, at, from) == Some(c),
    decreases bases.len() - from,
{
    let i = choose|i: int| #[trigger]
        sits(bases, i, at) && bases[i].name == c && forall|j: int| j < i ==> !#[trigger] sits(bases, j, at);
    assert(from <= i);
    if from < i {
        assert(!sits(bases, from, at));
        first_base_at(bases, at, from + 1, c);
    }
}

/// Every call that an owned function makes on a subobject of its class counts:
/// the class that lies there is a candidate for the function called.
pub proof fn calls_make_candidates(m: ModuleV, owners: Owners, n: int, k: int, j: int, g: u32, c: Seq<char>)
    requires
        0 <= n <= owners.len(),
    ensures
        table::ordered(ownership::candidates(m, owners, n)),
        0 <= k < n && (table::get(m.code.funcs, owners[k].0) matches Some(f) && hands_on_first(m, owners[k].1, f.calls, j, g, c))
            ==> table::list_at(ownership::candidates(m, owners, n), g).contains(c),
    decreases n,
{
    if n > 0 {
        calls_make_candidates(m, owners, n - 1, k, j, g, c);
        let s = ownership::candidates(m, owners, n - 1);
        if let Some(f) = m.func(owners[n - 1].0) {
            callers_give_candidates(m, s, owners[n - 1].1, f.calls, f.calls.len() as int, g, c);
            candidates_keep(m, s, owners[n - 1].1, f.calls, f.calls.len() as int, g, c);
        }
    } else {
        assert(ownership::candidates(m, owners, n) =~= Seq::empty());
    }
}

// ---------------------------------------------------------------------------
// Globals that hold instances.

/// Owned function `k` stores the start of its object into a writable global.
pub open spec fn stores_itself(m: ModuleV, owners: Owners, k: int, j: int, x: crate::model::InstanceGlobalV) -> bool {
    let (fr, o) = owners[k];
    let f = table::get(m.code.funcs, fr).unwrap();
    &&& 0 <= k < owners.len() && table::get(m.code.funcs, fr) is Some && 0 <= j < f.global_stores.len()
    &&& o.adj > i32::MIN && f.global_stores[j].val == Val::This((-o.adj) as i32)
    &&& x.class == o.class && x.func == fr && x.global == f.global_stores[j].global
    &&& m.pe.section_of(x.global) matches Some(s) && s.characteristics & 0x8000_0000 != 0
}

proof fn itself_is_listed(
    m: ModuleV,
    out: Seq<crate::model::InstanceGlobalV>,
    owners: Owners,
    k: int,
    n: int,
    x: crate::model::InstanceGlobalV,
)
    requires
        0 <= k < owners.len(),
        table::get(m.code.funcs, owners[k].0) matches Some(f) && 0 <= n <= f.global_stores.len(),
        owners[k].1.adj > i32::MIN,
    ensures
        ({
            let f = table::get(m.code.funcs, owners[k].0).unwrap();
            ownership::this_globals(m, out, owners[k].0, owners[k].1, f.global_stores, n).contains(x) <==> out.contains(x) || exists|
                j: int,
            |
                j < n && #[trigger] stores_itself(m, owners, k, j, x)
        }),
    decreases n,
{
    if n > 0 {
        itself_is_listed(m, out, owners, k, n - 1, x);
        let (fr, o) = owners[k];
        let f = table::get(m.code.funcs, fr).unwrap();
        let b = ownership::this_globals(m, out, fr, o, f.global_stores, n - 1);
        let g = f.global_stores[n - 1];
        let y = crate::model::InstanceGlobalV { class: o.class, global: g.global, func: fr };
        pushed_lists(b, y, x);
        assert(0i32.wrapping_sub(o.adj) == -o.adj);
        if exists|j: int| j < n && #[trigger] stores_itself(m, owners, k, j, x) {
            let j = choose|j: int| j < n && #[trigger] stores_itself(m, owners, k, j, x);
            if j == n - 1 {
                assert(x == y);
            }
        }
        if exists|j: int| j < n - 1 && #[trigger] stores_itself(m, owners, k, j, x) {
            let j = choose|j: int| j < n - 1 && #[trigger] stores_itself(m, owners, k, j, x);
            assert(j < n && stores_itself(m, owners, k, j, x));
        }
        if g.val == Val::This(0i32.wrapping_sub(o.adj)) && ownership::is_writable(m, g.global) {
            assert(stores_itself(m, owners, k, n - 1, y));
        }
    }
}

/// The globals that hold instances are those that a method stores its object
/// into, and all of them.
pub proof fn instances_are_stored_objects(m: ModuleV, owners: Owners, n: int, x: crate::model::InstanceGlobalV)
    requires
        0 <= n <= owners.len(),
        forall|k: int| 0 <= k < owners.len() ==> (#[trigger] owners[k]).1.adj > i32::MIN,
    ensures
        ownership::instances(m, owners, n).contains(x) <==> exists|k: int, j: int|
            k < n && #[trigger] stores_itself(m, owners, k, j, x),
    decreases n,
{
    if n > 0 {
        instances_are_stored_objects(m, owners, n - 1, x);
        let b = ownership::instances(m, owners, n - 1);
        let t = ownership::instances(m, owners, n);
        assert(owners[n - 1].1.adj > i32::MIN);
        if let Some(f) = m.func(owners[n - 1].0) {
            itself_is_listed(m, b, owners, n - 1, f.global_stores.len() as int, x);
            if t.contains(x) && !b.contains(x) {
                let j = choose|j: int| j < f.global_stores.len() && #[trigger] stores_itself(m, owners, n - 1, j, x);
                assert(n - 1 < n && stores_itself(m, owners, n - 1, j, x));
            }
        }
        if exists|k: int, j: int| k < n && #[trigger] stores_itself(m, owners, k, j, x) {
            let (k, j) = choose|k: int, j: int| k < n && #[trigger] stores_itself(m, owners, k, j, x);
            if k == n - 1 {
                let f = m.func(owners[k].0).unwrap();
                assert(j < f.global_stores.len() && stores_itself(m, owners, n - 1, j, x));
            }
        }
        if exists|k: int, j: int| k < n - 1 && #[trigger] stores_itself(m, owners, k, j, x) {
            let (k, j) = choose|k: int, j: int| k < n - 1 && #[trigger] stores_itself(m, owners, k, j, x);
            assert(k < n && stores_itself(m, owners, k, j, x));
        }
    } else {
        assert(ownership::instances(m, owners, n) =~= Seq::empty());
    }
}

} // verus!
