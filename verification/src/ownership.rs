//! Which class each function belongs to, and which globals hold instances.

use vstd::prelude::*;

use crate::analysis::{CallSite, GlobalStore, Target, Val};
use crate::model;
use crate::model::{InstanceGlobal, InstanceGlobalV, Module, ModuleV, NameSrc, Owner, OwnerSrc, OwnerV, Singleton, SingletonV};
use crate::names;
use crate::rtti::{BaseClass, BaseClassV, ClassV, VtableV};
use crate::structors;
use crate::table;
use crate::table::{Key, Table};
use crate::text;

verus! {

/// The classes, with their subobject offsets, whose vtables hold each function.
pub type Holders = Seq<(u32, Seq<(Seq<char>, i32)>)>;

/// The holders with one vtable entry of a class.
pub open spec fn held(m: ModuleV, hs: Holders, name: Seq<char>, off: u32, e: u32) -> Holders {
    let (t, delta) = m.resolve_entry(e);
    if m.entry_import(e) is Some || m.entry_import(t) is Some {
        hs
    } else {
        table::with_item(hs, t, (name, (off as i32).wrapping_add(delta)))
    }
}

/// The holders with the first `n` entries of a vtable.
pub open spec fn held_entries(m: ModuleV, hs: Holders, name: Seq<char>, v: VtableV, n: int) -> Holders
    decreases n,
{
    if n <= 0 {
        hs
    } else {
        held(m, held_entries(m, hs, name, v, n - 1), name, v.offset, v.entries[n - 1])
    }
}

/// The holders with the first `n` vtables of a class.
pub open spec fn held_vtables(m: ModuleV, hs: Holders, c: ClassV, n: int) -> Holders
    decreases n,
{
    if n <= 0 {
        hs
    } else {
        let v = c.vtables[n - 1];
        held_entries(m, held_vtables(m, hs, c, n - 1), c.name, v, v.entries.len() as int)
    }
}

/// The holders among the first `n` classes.
pub open spec fn holders(m: ModuleV, n: int) -> Holders
    decreases n,
{
    if n <= 0 {
        Seq::empty()
    } else {
        let c = m.rtti.classes[n - 1].1;
        held_vtables(m, holders(m, n - 1), c, c.vtables.len() as int)
    }
}

/// The class of holder `i` is an ancestor of all.
pub open spec fn covers(m: ModuleV, hs: Seq<(Seq<char>, i32)>, i: int) -> bool {
    forall|j: int| 0 <= j < hs.len() ==> m.is_ancestor(hs[i].0, (#[trigger] hs[j]).0)
}

/// The first holder from `i` on that is an ancestor of all.
pub open spec fn base_holder(m: ModuleV, hs: Seq<(Seq<char>, i32)>, i: int) -> Option<(Seq<char>, i32)>
    decreases hs.len() - i,
{
    if i < 0 || i >= hs.len() {
        None
    } else if covers(m, hs, i) {
        Some(hs[i])
    } else {
        base_holder(m, hs, i + 1)
    }
}

pub type Owners = Seq<(u32, OwnerV)>;

/// The owners with another for `f`, unless one trusted as much is known.
pub open spec fn with_owner(owners: Owners, f: u32, o: OwnerV) -> Owners {
    match table::get(owners, f) {
        Some(was) => if was.source.rank() >= o.source.rank() {
            owners
        } else {
            table::put(owners, f, o)
        },
        None => table::put(owners, f, o),
    }
}

fn put_owner(owners: &mut Table<u32, Owner>, f: u32, o: Owner)
    ensures
        final(owners).deep_view() == with_owner(old(owners).deep_view(), f, o.deep_view()),
{
    let keep = match owners.get(&f) {
        Some(was) => was.source.trust() >= o.source.trust(),
        None => false,
    };
    if !keep {
        owners.insert(f, o);
    }
}

/// Vtable slots: the owner is the most-base class whose vtable holds the
/// function. The owners of the first `n` functions held.
pub open spec fn vtable_owners(m: ModuleV, hs: Holders, n: int) -> Owners
    decreases n,
{
    if n <= 0 {
        Seq::empty()
    } else {
        let s = vtable_owners(m, hs, n - 1);
        match base_holder(m, hs[n - 1].1, 0) {
            Some((class, adj)) => with_owner(s, hs[n - 1].0, OwnerV { class, adj, source: OwnerSrc::Vtable }),
            None => s,
        }
    }
}

/// Classes by the functions named after their members.
pub type NamedBy = Seq<(u32, Seq<(Seq<char>, ())>)>;

/// The classes that the first `n` names speak of, as far as the names are
/// trusted and not of static functions.
pub open spec fn named_classes(m: ModuleV, n: int) -> NamedBy
    decreases n,
{
    if n <= 0 {
        Seq::empty()
    } else {
        let s = named_classes(m, n - 1);
        let (rva, name) = m.names[n - 1];
        if name.is_static || !name.source.at_least(NameSrc::Export) {
            s
        } else {
            match names::scope_of(name.name) {
                Some(c) => table::with_member(s, rva, c),
                None => s,
            }
        }
    }
}

/// `by` with the classes that the first `n` exports speak of.
pub open spec fn exported_classes(m: ModuleV, by: NamedBy, n: int) -> NamedBy
    decreases n,
{
    if n <= 0 {
        by
    } else {
        let s = exported_classes(m, by, n - 1);
        let e = m.pe.exports[n - 1];
        match e.name {
            None => s,
            Some(raw) => match names::scope_of(names::short_text(raw)) {
                Some(c) => if text::includes(names::demangle_text(raw), "static "@) {
                    s
                } else {
                    table::with_member(s, e.rva, c)
                },
                None => s,
            },
        }
    }
}

/// The offset at which a class holds a function, 0 if it does not.
pub open spec fn held_at(hs: Seq<(Seq<char>, i32)>, class: Seq<char>, i: int) -> i32
    decreases hs.len() - i,
{
    if i < 0 || i >= hs.len() {
        0
    } else if hs[i].0 == class {
        hs[i].1
    } else {
        held_at(hs, class, i + 1)
    }
}

/// Named functions. Identical-code-folded functions carry several names; they
/// are only trusted when the class agrees. Overrides of secondary-base
/// virtuals receive `this` of that subobject.
pub open spec fn named_owners(m: ModuleV, hs: Holders, owners: Owners, by: NamedBy, n: int) -> Owners
    decreases n,
{
    if n <= 0 {
        owners
    } else {
        let s = named_owners(m, hs, owners, by, n - 1);
        let (rva, classes) = by[n - 1];
        if classes.len() != 1 || !table::holds(m.code.funcs, rva) || table::holds(m.code.thunks, rva) {
            s
        } else {
            let class = classes[0].0;
            let adj = held_at(table::list_at(hs, rva), class, 0);
            with_owner(s, rva, OwnerV { class, adj, source: OwnerSrc::Named })
        }
    }
}

/// The owners with the first `n` constructors or destructors of a list.
pub open spec fn structor_owners(owners: Owners, list: Seq<(u32, Seq<char>)>, n: int) -> Owners
    decreases n,
{
    if n <= 0 {
        owners
    } else {
        with_owner(
            structor_owners(owners, list, n - 1),
            list[n - 1].0,
            OwnerV { class: list[n - 1].1, adj: 0, source: OwnerSrc::Structor },
        )
    }
}

// ---------------------------------------------------------------------------
// Propagation through calls made with rcx = this (+ base subobject offset).

/// A function that takes `this` from its callers.
pub open spec fn takes_this(m: ModuleV, g: u32) -> bool {
    &&& !structors::listed(m.allocators, g)
    &&& !structors::listed(m.deleters, Target::Direct(g))
    &&& !table::holds(m.code.thunks, g)
    &&& match m.func(g) {
        Some(f) => f.uses_this,
        None => false,
    }
    &&& match table::get(m.names, g) {
        Some(n) => !n.is_static,
        None => true,
    }
}

/// The first base from `i` on at an offset.
pub open spec fn base_at(bases: Seq<BaseClassV>, at: i32, i: int) -> Option<Seq<char>>
    decreases bases.len() - i,
{
    if i < 0 || i >= bases.len() {
        None
    } else if bases[i].mdisp == at && bases[i].pdisp == -1 {
        Some(bases[i].name)
    } else {
        base_at(bases, at, i + 1)
    }
}

/// The class of the subobject at an offset of a class.
pub open spec fn class_at(m: ModuleV, class: Seq<char>, at: i32) -> Option<Seq<char>> {
    if at == 0 {
        Some(class)
    } else {
        match m.rtti.class(class) {
            Some(c) => base_at(c.all_bases, at, 0),
            None => None,
        }
    }
}

/// Candidate classes by function.
pub type Candidates = Seq<(u32, Seq<Seq<char>>)>;

/// The candidates that the first `n` calls of a function give.
pub open spec fn called_on(m: ModuleV, cands: Candidates, o: OwnerV, calls: Seq<CallSite>, n: int) -> Candidates
    decreases n,
{
    if n <= 0 {
        cands
    } else {
        let s = called_on(m, cands, o, calls, n - 1);
        match (calls[n - 1].target, calls[n - 1].rcx) {
            (Target::Direct(g), Val::This(k)) => if takes_this(m, g) {
                match class_at(m, o.class, o.adj.wrapping_add(k)) {
                    Some(c) => table::with_item(s, g, c),
                    None => s,
                }
            } else {
                s
            },
            _ => s,
        }
    }
}

/// The candidates that the first `n` owned functions give.
pub open spec fn candidates(m: ModuleV, owners: Owners, n: int) -> Candidates
    decreases n,
{
    if n <= 0 {
        Seq::empty()
    } else {
        let s = candidates(m, owners, n - 1);
        match m.func(owners[n - 1].0) {
            Some(f) => called_on(m, s, owners[n - 1].1, f.calls, f.calls.len() as int),
            None => s,
        }
    }
}

/// `names` with those of the first `n` bases that start at the object.
pub open spec fn front_bases(list: Seq<Seq<char>>, bases: Seq<BaseClassV>, n: int) -> Seq<Seq<char>>
    decreases n,
{
    if n <= 0 {
        list
    } else {
        let s = front_bases(list, bases, n - 1);
        if bases[n - 1].mdisp == 0 && bases[n - 1].pdisp == -1 {
            s.push(bases[n - 1].name)
        } else {
            s
        }
    }
}

/// A class and its bases at offset zero.
pub open spec fn chain(m: ModuleV, class: Seq<char>) -> Seq<Seq<char>> {
    match m.rtti.class(class) {
        Some(c) => front_bases(seq![class], c.all_bases, c.all_bases.len() as int),
        None => seq![class],
    }
}

/// Every candidate behind the first has a class in its chain.
pub open spec fn shared(m: ModuleV, cands: Seq<Seq<char>>, class: Seq<char>) -> bool {
    forall|i: int| 1 <= i < cands.len() ==> chain(m, #[trigger] cands[i]).contains(class)
}

/// Those of the first `n` classes that all candidates share.
pub open spec fn shared_of(m: ModuleV, cands: Seq<Seq<char>>, list: Seq<Seq<char>>, n: int) -> Seq<Seq<char>>
    decreases n,
{
    if n <= 0 {
        Seq::empty()
    } else {
        let s = shared_of(m, cands, list, n - 1);
        if shared(m, cands, list[n - 1]) {
            s.push(list[n - 1])
        } else {
            s
        }
    }
}

/// Most-derived class that is a zero-offset ancestor-or-self of every candidate.
pub open spec fn common_ancestor(m: ModuleV, cands: Seq<Seq<char>>) -> Option<Seq<char>> {
    if cands.len() == 0 {
        None
    } else {
        let first = chain(m, cands[0]);
        let common = shared_of(m, cands, first, first.len() as int);
        structors::most_derived(m, common, common.len() as int)
    }
}

/// The owners after the first `n` functions with candidates take the ancestor
/// they share, and whether any changed.
pub open spec fn adopted(m: ModuleV, owners: Owners, cands: Candidates, n: int) -> (Owners, bool)
    decreases n,
{
    if n <= 0 {
        (owners, false)
    } else {
        let (s, changed) = adopted(m, owners, cands, n - 1);
        let (g, cs) = cands[n - 1];
        let was = table::get(s, g);
        if was is Some && was.unwrap().source.rank() > OwnerSrc::Propagated.rank() {
            (s, changed)
        } else {
            match common_ancestor(m, cs) {
                None => (s, changed),
                Some(class) => if was is Some && was.unwrap().class == class {
                    (s, changed)
                } else {
                    (table::put(s, g, OwnerV { class, adj: 0, source: OwnerSrc::Propagated }), true)
                },
            }
        }
    }
}

/// The owners after at most `n` rounds of propagation.
pub open spec fn propagated(m: ModuleV, owners: Owners, n: nat) -> Owners
    decreases n,
{
    if n == 0 {
        owners
    } else {
        let cands = candidates(m, owners, owners.len() as int);
        let (next, changed) = adopted(m, owners, cands, cands.len() as int);
        if changed {
            propagated(m, next, (n - 1) as nat)
        } else {
            next
        }
    }
}

// ---------------------------------------------------------------------------
// Globals that receive `this` from an owned method.

/// A global in a writable section.
pub open spec fn is_writable(m: ModuleV, rva: u32) -> bool {
    match m.pe.section_of(rva) {
        Some(s) => s.is_write(),
        None => false,
    }
}

/// `out` with the globals that the first `n` stores of an owned method write
/// `this` to.
pub open spec fn this_globals(
    m: ModuleV,
    out: Seq<InstanceGlobalV>,
    func: u32,
    o: OwnerV,
    stores: Seq<GlobalStore>,
    n: int,
) -> Seq<InstanceGlobalV>
    decreases n,
{
    if n <= 0 {
        out
    } else {
        let s = this_globals(m, out, func, o, stores, n - 1);
        let g = stores[n - 1];
        if g.val == Val::This(0i32.wrapping_sub(o.adj)) && is_writable(m, g.global) {
            s.push(InstanceGlobalV { class: o.class, global: g.global, func })
        } else {
            s
        }
    }
}

/// The globals that the first `n` owned methods write `this` to.
pub open spec fn instances(m: ModuleV, owners: Owners, n: int) -> Seq<InstanceGlobalV>
    decreases n,
{
    if n <= 0 {
        Seq::empty()
    } else {
        let s = instances(m, owners, n - 1);
        let (fr, o) = owners[n - 1];
        match m.func(fr) {
            Some(f) => this_globals(m, s, fr, o, f.global_stores, f.global_stores.len() as int),
            None => s,
        }
    }
}

/// The keys that instance globals are ordered by.
pub open spec fn instance_keys(s: Seq<InstanceGlobalV>) -> Seq<(Seq<char>, u32, u32)> {
    Seq::new(s.len(), |i: int| (s[i].class, s[i].global, s[i].func))
}

/// The first `n` instance globals, each run of one class and global once.
pub open spec fn distinct(s: Seq<InstanceGlobalV>, n: int) -> Seq<InstanceGlobalV>
    decreases n,
{
    if n <= 0 {
        Seq::empty()
    } else {
        let d = distinct(s, n - 1);
        if d.len() > 0 && d.last().class == s[n - 1].class && d.last().global == s[n - 1].global {
            d
        } else {
            d.push(s[n - 1])
        }
    }
}

pub open spec fn ordered_instances(s: Seq<InstanceGlobalV>) -> Seq<InstanceGlobalV> {
    let o = table::sorted_by(instance_keys(s), s);
    distinct(o, o.len() as int)
}

impl ModuleV {
    /// The owners that vtables, names and structors give.
    pub open spec fn direct_owners(self) -> Owners {
        let hs = holders(self, self.rtti.classes.len() as int);
        let by = exported_classes(
            self,
            named_classes(self, self.names.len() as int),
            self.pe.exports.len() as int,
        );
        let o = vtable_owners(self, hs, hs.len() as int);
        let o = named_owners(self, hs, o, by, by.len() as int);
        let o = structor_owners(o, self.ctors, self.ctors.len() as int);
        let o = structor_owners(o, self.dtors, self.dtors.len() as int);
        structor_owners(o, self.scalar_dtors, self.scalar_dtors.len() as int)
    }

    /// The module with an owning class for as many functions as possible.
    pub open spec fn ownership_computed(self) -> ModuleV {
        let owner = propagated(self, self.direct_owners(), 8);
        ModuleV {
            instance_globals: ordered_instances(instances(self, owner, owner.len() as int)),
            owner,
            ..self
        }
    }
}

// ---------------------------------------------------------------------------
// Computing it.

type HolderTable = Table<u32, Vec<(String, i32)>>;

fn is_covering(m: &Module, hs: &Vec<(String, i32)>, i: usize) -> (r: bool)
    requires
        i < hs@.len(),
    ensures
        r == covers(m.deep_view(), hs.deep_view(), i as int),
{
    let ghost h = hs.deep_view();
    let mut j: usize = 0;
    while j < hs.len()
        invariant
            h == hs.deep_view(),
            i < hs@.len(),
            j <= hs@.len(),
            forall|k: int| 0 <= k < j ==> m.deep_view().is_ancestor(h[i as int].0, (#[trigger] h[k]).0),
        decreases hs@.len() - j,
    {
        if !m.is_ancestor(hs[i].0.as_str(), hs[j].0.as_str()) {
            assert(!m.deep_view().is_ancestor(h[i as int].0, h[j as int].0));
            return false;
        }
        j += 1;
    }
    true
}

fn find_base_holder(m: &Module, hs: &Vec<(String, i32)>) -> (r: Option<(String, i32)>)
    ensures
        r.deep_view() == base_holder(m.deep_view(), hs.deep_view(), 0),
{
    let ghost h = hs.deep_view();
    let mut i: usize = 0;
    while i < hs.len()
        invariant
            h == hs.deep_view(),
            i <= hs@.len(),
            base_holder(m.deep_view(), h, 0) == base_holder(m.deep_view(), h, i as int),
        decreases hs@.len() - i,
    {
        if is_covering(m, hs, i) {
            return Some((hs[i].0.clone(), hs[i].1));
        }
        i += 1;
    }
    None
}

fn find_held_at(hs: &Vec<(String, i32)>, class: &str) -> (r: i32)
    ensures
        r == held_at(hs.deep_view(), class@, 0),
{
    let ghost h = hs.deep_view();
    let mut i: usize = 0;
    while i < hs.len()
        invariant
            h == hs.deep_view(),
            i <= hs@.len(),
            held_at(h, class@, 0) == held_at(h, class@, i as int),
        decreases hs@.len() - i,
    {
        if text::same(hs[i].0.as_str(), class) {
            return hs[i].1;
        }
        i += 1;
    }
    0
}

fn add_structors(owners: &mut Table<u32, Owner>, list: &Table<u32, String>)
    ensures
        final(owners).deep_view() == structor_owners(
            old(owners).deep_view(),
            list.deep_view(),
            list.deep_view().len() as int,
        ),
{
    let ghost before = owners.deep_view();
    let ghost l = list.deep_view();
    let mut i: usize = 0;
    while i < list.len()
        invariant
            before == old(owners).deep_view(),
            l == list.deep_view(),
            i <= l.len(),
            owners.deep_view() == structor_owners(before, l, i as int),
        decreases l.len() - i,
    {
        let o = Owner { class: list.value_at(i).clone(), adj: 0, source: OwnerSrc::Structor };
        put_owner(owners, *list.key_at(i), o);
        i += 1;
    }
}

fn find_base_at(bases: &Vec<BaseClass>, at: i32) -> (r: Option<String>)
    ensures
        r.deep_view() == base_at(bases.deep_view(), at, 0),
{
    let ghost b = bases.deep_view();
    let mut i: usize = 0;
    while i < bases.len()
        invariant
            b == bases.deep_view(),
            i <= bases@.len(),
            base_at(b, at, 0) == base_at(b, at, i as int),
        decreases bases@.len() - i,
    {
        if bases[i].mdisp == at && bases[i].pdisp == -1 {
            return Some(bases[i].name.clone());
        }
        i += 1;
    }
    None
}

fn has_name(list: &Vec<String>, name: &str) -> (r: bool)
    ensures
        r == list.deep_view().contains(name@),
{
    let ghost l = list.deep_view();
    let mut i: usize = 0;
    while i < list.len()
        invariant
            l == list.deep_view(),
            i <= list@.len(),
            forall|k: int| 0 <= k < i ==> l[k] != name@,
        decreases list@.len() - i,
    {
        if text::same(list[i].as_str(), name) {
            assert(l[i as int] == name@);
            return true;
        }
        i += 1;
    }
    false
}

impl Module {
    fn add_held(&self, hs: &mut HolderTable, name: &str, off: u32, e: u32)
        ensures
            final(hs).deep_view() == held(self.deep_view(), old(hs).deep_view(), name@, off, e),
    {
        if self.entry_import(e).is_some() {
            return;
        }
        let (t, delta) = self.resolve_entry(e);
        if self.entry_import(t).is_some() {
            return;
        }
        table::push_item(hs, t, (name.to_owned(), (off as i32).wrapping_add(delta)));
    }

    fn find_holders(&self) -> (r: HolderTable)
        ensures
            r.deep_view() == holders(self.deep_view(), self.deep_view().rtti.classes.len() as int),
    {
        let ghost m = self.deep_view();
        let mut hs: HolderTable = Table::new();
        let mut i: usize = 0;
        while i < self.rtti.classes.len()
            invariant
                m == self.deep_view(),
                i <= m.rtti.classes.len(),
                hs.deep_view() == holders(m, i as int),
            decreases m.rtti.classes.len() - i,
        {
            let c = self.rtti.classes.value_at(i);
            let ghost cv = c.deep_view();
            let ghost before = hs.deep_view();
            let mut k: usize = 0;
            while k < c.vtables.len()
                invariant
                    m == self.deep_view(),
                    cv == c.deep_view(),
                    k <= c.vtables@.len(),
                    hs.deep_view() == held_vtables(m, before, cv, k as int),
                decreases c.vtables@.len() - k,
            {
                let v = &c.vtables[k];
                let ghost vv = v.deep_view();
                assert(vv == cv.vtables[k as int]);
                let ghost pre = hs.deep_view();
                let mut j: usize = 0;
                while j < v.entries.len()
                    invariant
                        m == self.deep_view(),
                        cv == c.deep_view(),
                        vv == v.deep_view(),
                        j <= v.entries@.len(),
                        hs.deep_view() == held_entries(m, pre, cv.name, vv, j as int),
                    decreases v.entries@.len() - j,
                {
                    self.add_held(&mut hs, c.name.as_str(), v.offset, v.entries[j]);
                    j += 1;
                }
                k += 1;
            }
            i += 1;
        }
        hs
    }

    fn find_named_classes(&self) -> (r: Table<u32, Table<String, ()>>)
        ensures
            r.deep_view() == exported_classes(
                self.deep_view(),
                named_classes(self.deep_view(), self.deep_view().names.len() as int),
                self.deep_view().pe.exports.len() as int,
            ),
    {
        let ghost m = self.deep_view();
        let mut by: Table<u32, Table<String, ()>> = Table::new();
        let mut i: usize = 0;
        while i < self.names.len()
            invariant
                m == self.deep_view(),
                i <= m.names.len(),
                by.deep_view() == named_classes(m, i as int),
            decreases m.names.len() - i,
        {
            let n = self.names.value_at(i);
            if !n.is_static && n.source.reaches(NameSrc::Export) {
                if let Some(c) = names::scope_string(n.name.as_str()) {
                    table::add_member(&mut by, *self.names.key_at(i), c);
                }
            }
            i += 1;
        }
        let ghost first = by.deep_view();
        i = 0;
        while i < self.pe.exports.len()
            invariant
                m == self.deep_view(),
                i <= self.pe.exports@.len(),
                by.deep_view() == exported_classes(m, first, i as int),
            decreases self.pe.exports@.len() - i,
        {
            let e = &self.pe.exports[i];
            assert(e.deep_view() == m.pe.exports[i as int]);
            if let Some(raw) = &e.name {
                let short = names::short_function_name(raw.as_str());
                if let Some(c) = names::scope_string(short.as_str()) {
                    let full = names::demangle(raw.as_str());
                    if !text::contains(full.as_str(), "static ") {
                        table::add_member(&mut by, e.rva, c);
                    }
                }
            }
            i += 1;
        }
        by
    }

    fn add_named_owners(&self, hs: &HolderTable, owners: &mut Table<u32, Owner>, by: &Table<u32, Table<String, ()>>)
        ensures
            final(owners).deep_view() == named_owners(
                self.deep_view(),
                hs.deep_view(),
                old(owners).deep_view(),
                by.deep_view(),
                by.deep_view().len() as int,
            ),
    {
        let ghost m = self.deep_view();
        let ghost h = hs.deep_view();
        let ghost b = by.deep_view();
        let ghost before = owners.deep_view();
        let mut i: usize = 0;
        while i < by.len()
            invariant
                m == self.deep_view(),
                h == hs.deep_view(),
                b == by.deep_view(),
                before == old(owners).deep_view(),
                i <= b.len(),
                owners.deep_view() == named_owners(m, h, before, b, i as int),
            decreases b.len() - i,
        {
            let rva = *by.key_at(i);
            let classes = by.value_at(i);
            if classes.len() == 1 && self.code.funcs.contains(&rva) && !self.code.thunks.contains(&rva) {
                let class = classes.key_at(0).clone();
                let adj: i32 = match hs.get(&rva) {
                    Some(l) => find_held_at(l, class.as_str()),
                    None => 0,
                };
                put_owner(owners, rva, Owner { class, adj, source: OwnerSrc::Named });
            }
            i += 1;
        }
    }

    fn find_direct_owners(&self) -> (r: Table<u32, Owner>)
        ensures
            r.deep_view() == self.deep_view().direct_owners(),
    {
        let ghost m = self.deep_view();
        let hs = self.find_holders();
        let ghost h = hs.deep_view();
        let mut owners: Table<u32, Owner> = Table::new();
        let mut i: usize = 0;
        while i < hs.len()
            invariant
                m == self.deep_view(),
                h == hs.deep_view(),
                i <= h.len(),
                owners.deep_view() == vtable_owners(m, h, i as int),
            decreases h.len() - i,
        {
            if let Some((class, adj)) = find_base_holder(self, hs.value_at(i)) {
                put_owner(&mut owners, *hs.key_at(i), Owner { class, adj, source: OwnerSrc::Vtable });
            }
            i += 1;
        }
        let by = self.find_named_classes();
        self.add_named_owners(&hs, &mut owners, &by);
        add_structors(&mut owners, &self.ctors);
        add_structors(&mut owners, &self.dtors);
        add_structors(&mut owners, &self.scalar_dtors);
        owners
    }

    fn wants_this(&self, g: u32) -> (r: bool)
        ensures
            r == takes_this(self.deep_view(), g),
    {
        let used = match self.func(g) {
            Some(f) => f.uses_this,
            None => false,
        };
        let fixed = match self.names.get(&g) {
            Some(n) => n.is_static,
            None => false,
        };
        used && !fixed && !structors::lists_address(&self.allocators, g) && !structors::lists_target(
            &self.deleters,
            Target::Direct(g),
        ) && !self.code.thunks.contains(&g)
    }

    fn class_at(&self, class: &str, at: i32) -> (r: Option<String>)
        ensures
            r.deep_view() == class_at(self.deep_view(), class@, at),
    {
        if at == 0 {
            return Some(class.to_owned());
        }
        match self.rtti.class(class) {
            Some(c) => find_base_at(&c.all_bases, at),
            None => None,
        }
    }

    fn find_candidates(&self, owners: &Table<u32, Owner>) -> (r: Table<u32, Vec<String>>)
        ensures
            r.deep_view() == candidates(self.deep_view(), owners.deep_view(), owners.deep_view().len() as int),
    {
        let ghost m = self.deep_view();
        let ghost ow = owners.deep_view();
        let mut cands: Table<u32, Vec<String>> = Table::new();
        let mut i: usize = 0;
        while i < owners.len()
            invariant
                m == self.deep_view(),
                ow == owners.deep_view(),
                i <= ow.len(),
                cands.deep_view() == candidates(m, ow, i as int),
            decreases ow.len() - i,
        {
            let o = owners.value_at(i);
            if let Some(f) = self.func(*owners.key_at(i)) {
                let ghost before = cands.deep_view();
                let mut k: usize = 0;
                while k < f.calls.len()
                    invariant
                        m == self.deep_view(),
                        k <= f.calls@.len(),
                        cands.deep_view() == called_on(m, before, o.deep_view(), f.calls@, k as int),
                    decreases f.calls@.len() - k,
                {
                    if let (Target::Direct(g), Val::This(d)) = (f.calls[k].target, f.calls[k].rcx) {
                        if self.wants_this(g) {
                            if let Some(c) = self.class_at(o.class.as_str(), o.adj.wrapping_add(d)) {
                                table::push_item(&mut cands, g, c);
                            }
                        }
                    }
                    k += 1;
                }
            }
            i += 1;
        }
        cands
    }

    fn chain_of(&self, class: &str) -> (r: Vec<String>)
        ensures
            r.deep_view() == chain(self.deep_view(), class@),
    {
        let mut out: Vec<String> = Vec::new();
        out.push(class.to_owned());
        assert(out.deep_view() =~= seq![class@]);
        if let Some(c) = self.rtti.class(class) {
            let ghost b = c.all_bases.deep_view();
            let mut i: usize = 0;
            while i < c.all_bases.len()
                invariant
                    b == c.all_bases.deep_view(),
                    i <= c.all_bases@.len(),
                    out.deep_view() == front_bases(seq![class@], b, i as int),
                decreases c.all_bases@.len() - i,
            {
                let x = &c.all_bases[i];
                if x.mdisp == 0 && x.pdisp == -1 {
                    let ghost before = out.deep_view();
                    out.push(x.name.clone());
                    assert(out.deep_view() =~= before.push(b[i as int].name));
                }
                i += 1;
            }
        }
        out
    }

    fn is_shared(&self, cands: &Vec<String>, class: &str) -> (r: bool)
        ensures
            r == shared(self.deep_view(), cands.deep_view(), class@),
    {
        let ghost m = self.deep_view();
        let ghost cs = cands.deep_view();
        let mut i: usize = 1;
        while i < cands.len()
            invariant
                m == self.deep_view(),
                cs == cands.deep_view(),
                1 <= i,
                forall|k: int| 1 <= k < i && k < cs.len() ==> chain(m, #[trigger] cs[k]).contains(class@),
            decreases cands@.len() - i,
        {
            let c = self.chain_of(cands[i].as_str());
            if !has_name(&c, class) {
                assert(!chain(m, cs[i as int]).contains(class@));
                return false;
            }
            i += 1;
        }
        true
    }

    /// Most-derived class that is a zero-offset ancestor-or-self of every candidate.
    pub fn common_ancestor(&self, cands: &Vec<String>) -> (r: Option<String>)
        ensures
            r.deep_view() == common_ancestor(self.deep_view(), cands.deep_view()),
    {
        if cands.len() == 0 {
            return None;
        }
        let ghost m = self.deep_view();
        let ghost cs = cands.deep_view();
        let first = self.chain_of(cands[0].as_str());
        let ghost fv = first.deep_view();
        let mut common: Vec<String> = Vec::new();
        let mut i: usize = 0;
        assert(common.deep_view() =~= Seq::empty());
        while i < first.len()
            invariant
                m == self.deep_view(),
                cs == cands.deep_view(),
                fv == first.deep_view(),
                i <= first@.len(),
                common.deep_view() == shared_of(m, cs, fv, i as int),
            decreases first@.len() - i,
        {
            if self.is_shared(cands, first[i].as_str()) {
                let ghost before = common.deep_view();
                common.push(first[i].clone());
                assert(common.deep_view() =~= before.push(fv[i as int]));
            }
            i += 1;
        }
        self.pick_most_derived(&common)
    }

    fn adopt(&self, owners: &mut Table<u32, Owner>, cands: &Table<u32, Vec<String>>) -> (changed: bool)
        ensures
            (final(owners).deep_view(), changed) == adopted(
                self.deep_view(),
                old(owners).deep_view(),
                cands.deep_view(),
                cands.deep_view().len() as int,
            ),
    {
        let ghost m = self.deep_view();
        let ghost before = owners.deep_view();
        let ghost c = cands.deep_view();
        let mut changed = false;
        let mut i: usize = 0;
        while i < cands.len()
            invariant
                m == self.deep_view(),
                before == old(owners).deep_view(),
                c == cands.deep_view(),
                i <= c.len(),
                (owners.deep_view(), changed) == adopted(m, before, c, i as int),
            decreases c.len() - i,
        {
            let g = *cands.key_at(i);
            let firm = match owners.get(&g) {
                Some(o) => o.source.trust() > OwnerSrc::Propagated.trust(),
                None => false,
            };
            if !firm {
                if let Some(class) = self.common_ancestor(cands.value_at(i)) {
                    let known = match owners.get(&g) {
                        Some(o) => text::same(o.class.as_str(), class.as_str()),
                        None => false,
                    };
                    if !known {
                        owners.insert(g, Owner { class, adj: 0, source: OwnerSrc::Propagated });
                        changed = true;
                    }
                }
            }
            i += 1;
        }
        changed
    }

    fn propagate(&self, owners: &mut Table<u32, Owner>)
        ensures
            final(owners).deep_view() == propagated(self.deep_view(), old(owners).deep_view(), 8),
    {
        let ghost m = self.deep_view();
        let ghost all = propagated(m, owners.deep_view(), 8);
        let mut n: usize = 8;
        while n > 0
            invariant_except_break
                all == propagated(m, owners.deep_view(), n as nat),
            invariant
                m == self.deep_view(),
                all == propagated(m, old(owners).deep_view(), 8),
            ensures
                owners.deep_view() == all,
            decreases n,
        {
            let cands = self.find_candidates(owners);
            let changed = self.adopt(owners, &cands);
            if !changed {
                break;
            }
            n -= 1;
        }
    }

    fn find_instances(&self, owners: &Table<u32, Owner>) -> (r: Vec<InstanceGlobal>)
        ensures
            r.deep_view() == instances(self.deep_view(), owners.deep_view(), owners.deep_view().len() as int),
    {
        let ghost m = self.deep_view();
        let ghost ow = owners.deep_view();
        let mut out: Vec<InstanceGlobal> = Vec::new();
        let mut i: usize = 0;
        assert(out.deep_view() =~= Seq::empty());
        while i < owners.len()
            invariant
                m == self.deep_view(),
                ow == owners.deep_view(),
                i <= ow.len(),
                out.deep_view() == instances(m, ow, i as int),
            decreases ow.len() - i,
        {
            let fr = *owners.key_at(i);
            let o = owners.value_at(i);
            if let Some(f) = self.func(fr) {
                let ghost before = out.deep_view();
                let mut k: usize = 0;
                while k < f.global_stores.len()
                    invariant
                        m == self.deep_view(),
                        k <= f.global_stores@.len(),
                        out.deep_view() == this_globals(m, before, fr, o.deep_view(), f.global_stores@, k as int),
                    decreases f.global_stores@.len() - k,
                {
                    let g = f.global_stores[k];
                    let writable = match self.pe.section_of(g.global) {
                        Some(s) => s.is_write(),
                        None => false,
                    };
                    if g.val == Val::This(0i32.wrapping_sub(o.adj)) && writable {
                        let ghost pre = out.deep_view();
                        let x = InstanceGlobal { class: o.class.clone(), global: g.global, func: fr };
                        let ghost xv = x.deep_view();
                        out.push(x);
                        assert(out.deep_view() =~= pre.push(xv));
                    }
                    k += 1;
                }
            }
            i += 1;
        }
        out
    }

    /// Assign an owning class (and `this` adjustment) to as many functions as possible.
    pub fn compute_ownership(&mut self)
        ensures
            final(self).deep_view() == old(self).deep_view().ownership_computed(),
    {
        let mut owners = self.find_direct_owners();
        self.propagate(&mut owners);
        let found = self.find_instances(&owners);
        self.instance_globals = order_instances(found);
        self.owner = owners;
    }
}

fn order_instances(list: Vec<InstanceGlobal>) -> (r: Vec<InstanceGlobal>)
    ensures
        r.deep_view() == ordered_instances(list.deep_view()),
{
    let ghost s = list.deep_view();
    let mut keys: Vec<(String, u32, u32)> = Vec::new();
    let mut i: usize = 0;
    while i < list.len()
        invariant
            s == list.deep_view(),
            i <= list@.len(),
            table::key_models(keys@) == instance_keys(s).take(i as int),
            keys@.len() == i,
        decreases list@.len() - i,
    {
        let ghost before = table::key_models(keys@);
        let x = &list[i];
        let k = (x.class.clone(), x.global, x.func);
        let ghost kv = k.key();
        assert(kv == instance_keys(s)[i as int]);
        keys.push(k);
        i += 1;
        assert(table::key_models(keys@) =~= before.push(kv));
        assert(instance_keys(s).take(i as int) =~= before.push(kv));
    }
    assert(instance_keys(s).take(i as int) =~= instance_keys(s));
    let o = table::stable_sort(keys, list);
    let ghost ov = o.deep_view();
    let mut out: Vec<InstanceGlobal> = Vec::new();
    i = 0;
    assert(out.deep_view() =~= Seq::empty());
    while i < o.len()
        invariant
            ov == o.deep_view(),
            i <= o@.len(),
            out.deep_view() == distinct(ov, i as int),
        decreases o@.len() - i,
    {
        let x = &o[i];
        let same = out.len() > 0 && {
            let y = &out[out.len() - 1];
            assert(out.deep_view().last() == y.deep_view());
            text::same(y.class.as_str(), x.class.as_str()) && y.global == x.global
        };
        if !same {
            let ghost before = out.deep_view();
            out.push(InstanceGlobal { class: x.class.clone(), global: x.global, func: x.func });
            assert(out.deep_view() =~= before.push(ov[i as int]));
        }
        i += 1;
    }
    out
}

// ---------------------------------------------------------------------------
// Accessors of singletons.

/// How little the name of an accessor looks like `sharedState()`.
pub open spec fn accessor_rank(name: Seq<char>) -> u32 {
    let tail = match names::member_of(name) {
        Some(t) => t,
        None => Seq::empty(),
    };
    if text::prefixed(tail, "shared"@) || tail == "get"@ || tail == "instance"@ || text::prefixed(tail, "getinstance"@) {
        0
    } else if name.len() == 0 {
        1
    } else {
        2
    }
}

fn rank_accessor(name: &str) -> (r: u32)
    ensures
        r == accessor_rank(name@),
{
    let tail = match names::member_string(name) {
        Some(t) => t,
        None => {
            let t = String::new();
            assert(t@ =~= Seq::empty());
            t
        },
    };
    let t = tail.as_str();
    if text::starts_with(t, "shared") || text::same(t, "get") || text::same(t, "instance") || text::starts_with(
        t,
        "getinstance",
    ) {
        0
    } else if text::count(name) == 0 {
        1
    } else {
        2
    }
}

/// Rank and size of the accessor of a singleton.
pub open spec fn accessor_score(m: ModuleV, s: SingletonV) -> (u32, u32) {
    let name = match table::get(m.names, s.accessor) {
        Some(n) => text::lowered(n.name),
        None => Seq::empty(),
    };
    let size = match m.func(s.accessor) {
        Some(f) => f.end.wrapping_sub(f.start),
        None => u32::MAX,
    };
    (accessor_rank(name), size)
}

/// The best accessor for each class and global.
pub type Best = Seq<((Option<Seq<char>>, u32), (u32, u32, SingletonV))>;

/// The best accessors among the first `n` singletons: the lower rank, then the
/// smaller function, then the first.
pub open spec fn best_accessors(m: ModuleV, n: int) -> Best
    decreases n,
{
    if n <= 0 {
        Seq::empty()
    } else {
        let b = best_accessors(m, n - 1);
        let s = m.singletons[n - 1];
        let (rank, size) = accessor_score(m, s);
        let key = (s.class, s.global);
        let better = match table::get(b, key) {
            Some(e) => rank < e.0 || (rank == e.0 && size < e.1),
            None => true,
        };
        if better {
            table::put(b, key, (rank, size, s))
        } else {
            b
        }
    }
}

impl ModuleV {
    pub open spec fn best_singletons(self) -> Seq<SingletonV> {
        let b = best_accessors(self, self.singletons.len() as int);
        Seq::new(b.len(), |i: int| b[i].1.2)
    }
}

impl Module {
    fn score(&self, s: &Singleton) -> (r: (u32, u32))
        ensures
            r == accessor_score(self.deep_view(), s.deep_view()),
    {
        let name = match self.names.get(&s.accessor) {
            Some(n) => text::to_lower(n.name.as_str()),
            None => {
                let t = String::new();
                assert(t@ =~= Seq::empty());
                t
            },
        };
        let size: u32 = match self.func(s.accessor) {
            Some(f) => f.end.wrapping_sub(f.start),
            None => u32::MAX,
        };
        (rank_accessor(name.as_str()), size)
    }

    /// One entry per (class, global): the accessor is the function that looks
    /// most like `sharedState()` (by name, then by size) among all functions
    /// that inline the lazy initialisation.
    pub fn best_singletons(&self) -> (r: Vec<Singleton>)
        ensures
            r.deep_view() == self.deep_view().best_singletons(),
    {
        let ghost m = self.deep_view();
        let mut best: Table<(Option<String>, u32), (u32, u32, Singleton)> = Table::new();
        let mut i: usize = 0;
        while i < self.singletons.len()
            invariant
                m == self.deep_view(),
                i <= self.singletons@.len(),
                best.deep_view() == best_accessors(m, i as int),
            decreases self.singletons@.len() - i,
        {
            let s = &self.singletons[i];
            assert(s.deep_view() == m.singletons[i as int]);
            let (rank, size) = self.score(s);
            let key = (model::copy_text(&s.class), s.global);
            assert(key.key() == (m.singletons[i as int].class, m.singletons[i as int].global)) by {
                assert(key.0.deep_view() == s.class.deep_view());
            }
            let better = match best.get(&key) {
                Some(e) => rank < e.0 || (rank == e.0 && size < e.1),
                None => true,
            };
            if better {
                best.insert(key, (rank, size, s.clone()));
            }
            i += 1;
        }
        let ghost b = best.deep_view();
        let ghost all = m.best_singletons();
        let mut out: Vec<Singleton> = Vec::new();
        i = 0;
        assert(out.deep_view() =~= all.take(0));
        while i < best.len()
            invariant
                b == best.deep_view(),
                all.len() == b.len(),
                forall|k: int| 0 <= k < b.len() ==> #[trigger] all[k] == b[k].1.2,
                i <= b.len(),
                out.deep_view() == all.take(i as int),
            decreases b.len() - i,
        {
            let ghost before = out.deep_view();
            let s = best.value_at(i).2.clone();
            let ghost x = s.deep_view();
            out.push(s);
            i += 1;
            assert(out.deep_view() =~= before.push(x));
            assert(all.take(i as int) =~= before.push(all[i - 1]));
        }
        assert(all.take(i as int) =~= all);
        out
    }
}

// ---------------------------------------------------------------------------
// Laws.

/// An owner is there still, or another from a source trusted as much.
pub open spec fn as_trusted(was: Option<OwnerV>, now: Option<OwnerV>) -> bool {
    was is Some ==> now is Some && now.unwrap().source.rank() >= was.unwrap().source.rank()
}

/// Every owner known to `a` is known to `b` from a source trusted as much.
pub open spec fn trusts_on(a: Owners, b: Owners) -> bool {
    forall|f: u32| as_trusted(#[trigger] table::get(a, f), table::get(b, f))
}

proof fn trust_along(a: Owners, b: Owners, c: Owners)
    requires
        trusts_on(a, b),
        trusts_on(b, c),
    ensures
        trusts_on(a, c),
{
    assert forall|f: u32| as_trusted(#[trigger] table::get(a, f), table::get(c, f)) by {
        assert(as_trusted(table::get(b, f), table::get(c, f)));
    }
}

proof fn owner_gains(owners: Owners, f: u32, o: OwnerV)
    requires
        table::ordered(owners),
    ensures
        table::ordered(with_owner(owners, f, o)),
        trusts_on(owners, with_owner(owners, f, o)),
        table::get(with_owner(owners, f, o), f) matches Some(now) && now.source.rank() >= o.source.rank(),
{
    let next = with_owner(owners, f, o);
    table::get_after_put(owners, f, o, f);
    assert forall|g: u32| as_trusted(#[trigger] table::get(owners, g), table::get(next, g)) by {
        table::get_after_put(owners, f, o, g);
    }
}

/// An owner that is offered is taken, or one from a source trusted as much is
/// known already; every other owner stays.
pub proof fn owners_gain_trust(owners: Owners, f: u32, o: OwnerV)
    requires
        table::ordered(owners),
    ensures
        trusts_on(owners, with_owner(owners, f, o)),
        table::get(with_owner(owners, f, o), f) matches Some(now) && now.source.rank() >= o.source.rank(),
{
    owner_gains(owners, f, o);
}

proof fn adopting_gains(m: ModuleV, owners: Owners, cands: Candidates, n: int)
    requires
        table::ordered(owners),
    ensures
        table::ordered(adopted(m, owners, cands, n).0),
        trusts_on(owners, adopted(m, owners, cands, n).0),
    decreases n,
{
    if n > 0 {
        adopting_gains(m, owners, cands, n - 1);
        let s = adopted(m, owners, cands, n - 1).0;
        let next = adopted(m, owners, cands, n).0;
        let (g, cs) = cands[n - 1];
        assert(table::ordered(next) && trusts_on(s, next)) by {
            if let Some(class) = common_ancestor(m, cs) {
                let o = OwnerV { class, adj: 0, source: OwnerSrc::Propagated };
                table::put_ordered(s, g, o);
                assert forall|f: u32| as_trusted(#[trigger] table::get(s, f), table::get(next, f)) by {
                    table::get_after_put(s, g, o, f);
                }
            }
        }
        trust_along(owners, s, next);
    }
}

/// Propagation never takes an owner away, nor replaces one from a vtable, a
/// name or a structor by a guess.
pub proof fn propagation_gains_trust(m: ModuleV, owners: Owners, n: nat)
    requires
        table::ordered(owners),
    ensures
        table::ordered(propagated(m, owners, n)),
        trusts_on(owners, propagated(m, owners, n)),
    decreases n,
{
    if n > 0 {
        let cands = candidates(m, owners, owners.len() as int);
        let (next, changed) = adopted(m, owners, cands, cands.len() as int);
        adopting_gains(m, owners, cands, cands.len() as int);
        if changed {
            propagation_gains_trust(m, next, (n - 1) as nat);
            trust_along(owners, next, propagated(m, next, (n - 1) as nat));
        }
    }
}

proof fn vtable_owners_ordered(m: ModuleV, hs: Holders, n: int)
    ensures
        table::ordered(vtable_owners(m, hs, n)),
    decreases n,
{
    if n > 0 {
        vtable_owners_ordered(m, hs, n - 1);
        if let Some((class, adj)) = base_holder(m, hs[n - 1].1, 0) {
            owner_gains(vtable_owners(m, hs, n - 1), hs[n - 1].0, OwnerV { class, adj, source: OwnerSrc::Vtable });
        }
    }
}

proof fn named_owners_ordered(m: ModuleV, hs: Holders, owners: Owners, by: NamedBy, n: int)
    requires
        table::ordered(owners),
    ensures
        table::ordered(named_owners(m, hs, owners, by, n)),
    decreases n,
{
    if n > 0 {
        named_owners_ordered(m, hs, owners, by, n - 1);
        let (rva, classes) = by[n - 1];
        let class = classes[0].0;
        let adj = held_at(table::list_at(hs, rva), class, 0);
        owner_gains(named_owners(m, hs, owners, by, n - 1), rva, OwnerV { class, adj, source: OwnerSrc::Named });
    }
}

proof fn structor_owners_ordered(owners: Owners, list: Seq<(u32, Seq<char>)>, n: int)
    requires
        table::ordered(owners),
    ensures
        table::ordered(structor_owners(owners, list, n)),
    decreases n,
{
    if n > 0 {
        structor_owners_ordered(owners, list, n - 1);
        let o = OwnerV { class: list[n - 1].1, adj: 0, source: OwnerSrc::Structor };
        owner_gains(structor_owners(owners, list, n - 1), list[n - 1].0, o);
    }
}

/// A function that a vtable, a name or a structor gives an owner has one from a
/// source trusted as much once ownership is computed.
pub proof fn direct_owners_stay(m: ModuleV)
    ensures
        trusts_on(m.direct_owners(), m.ownership_computed().owner),
{
    let hs = holders(m, m.rtti.classes.len() as int);
    let by = exported_classes(m, named_classes(m, m.names.len() as int), m.pe.exports.len() as int);
    let a = vtable_owners(m, hs, hs.len() as int);
    vtable_owners_ordered(m, hs, hs.len() as int);
    let b = named_owners(m, hs, a, by, by.len() as int);
    named_owners_ordered(m, hs, a, by, by.len() as int);
    let c = structor_owners(b, m.ctors, m.ctors.len() as int);
    structor_owners_ordered(b, m.ctors, m.ctors.len() as int);
    let d = structor_owners(c, m.dtors, m.dtors.len() as int);
    structor_owners_ordered(c, m.dtors, m.dtors.len() as int);
    structor_owners_ordered(d, m.scalar_dtors, m.scalar_dtors.len() as int);
    propagation_gains_trust(m, m.direct_owners(), 8);
}

} // verus!
