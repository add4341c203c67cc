//! Signatures for everything that has a real name, so that the next build of
//! the game can keep all names.

use vstd::multiset::Multiset;
use vstd::prelude::*;

use crate::dump::scoped;
use crate::dump::scoped_name;
use crate::dump::FieldNames;
use crate::dump::GlobalNames;
use crate::dump::NamedField;
use crate::dump::NamedFieldV;
use crate::dump::Report;
use crate::dump::ReportV;
use crate::generate;
use crate::generate::{Want, WantV};
use crate::model::{Module, ModuleV, NameSrc, NameV};
use crate::names;
use crate::rtti::{Class, ClassV, VtableV};
use crate::sigs::{Extra, ExtraV, Kind, Sig, SigV};
use crate::table;
use crate::table::Table;
use crate::text;

verus! {

impl ReportV {
    /// The module that a class's fields are searched in.
    pub open spec fn field_module(self, class: Seq<char>) -> usize {
        match table::get(self.world.classes, class) {
            Some(c) => match c.module {
                Some(m) => m,
                None => self.exe,
            },
            None => self.exe,
        }
    }
}

// ---------------------------------------------------------------------------
// What is wanted.

/// Functions wanted, and their names.
pub ghost struct Functions {
    pub wants: Seq<WantV>,
    pub seen: Seq<(Seq<char>, ())>,
}

/// The first function of each name among the first `n` names, where a
/// signature or something better gave the name.
pub open spec fn function_wants(names: Seq<(u32, NameV)>, n: int) -> Functions
    decreases n,
{
    if n <= 0 {
        Functions { wants: Seq::empty(), seen: Seq::empty() }
    } else {
        let s = function_wants(names, n - 1);
        let (rva, name) = names[n - 1];
        if name.source.at_least(NameSrc::Signature) && !table::holds(s.seen, name.name) {
            Functions {
                wants: s.wants.push(WantV::Func { name: name.name, rva }),
                seen: table::put(s.seen, name.name, ()),
            }
        } else {
            s
        }
    }
}

/// Those of the first `n` globals that are in a module.
pub open spec fn global_wants(gs: GlobalNames, mi: usize, n: int) -> Seq<WantV>
    decreases n,
{
    if n <= 0 {
        Seq::empty()
    } else {
        let s = global_wants(gs, mi, n - 1);
        if gs[n - 1].0.0 == mi {
            s.push(WantV::Global { name: gs[n - 1].1, rva: gs[n - 1].0.1 })
        } else {
            s
        }
    }
}

/// The first `n` names at an offset of a class.
pub open spec fn offset_wants(class: Seq<char>, offset: i32, fs: Seq<NamedFieldV>, n: int) -> Seq<WantV>
    decreases n,
{
    if n <= 0 {
        Seq::empty()
    } else {
        offset_wants(class, offset, fs, n - 1).push(
            WantV::Field { name: scoped(class, fs[n - 1].name), class, offset },
        )
    }
}

/// The names at the first `n` offsets of a class.
pub open spec fn class_wants(class: Seq<char>, fields: Seq<(i32, Seq<NamedFieldV>)>, n: int) -> Seq<WantV>
    decreases n,
{
    if n <= 0 {
        Seq::empty()
    } else {
        let (o, fs) = fields[n - 1];
        class_wants(class, fields, n - 1) + offset_wants(class, o, fs, fs.len() as int)
    }
}

/// The fields of those of the first `n` classes that are searched in a module.
pub open spec fn field_wants(r: ReportV, mi: usize, n: int) -> Seq<WantV>
    decreases n,
{
    if n <= 0 {
        Seq::empty()
    } else {
        let s = field_wants(r, mi, n - 1);
        let (class, fields) = r.named_fields[n - 1];
        if r.field_module(class) == mi {
            s + class_wants(class, fields, fields.len() as int)
        } else {
            s
        }
    }
}

/// Everything wanted from a module.
pub open spec fn wants_from(r: ReportV, mi: usize) -> Seq<WantV> {
    let names = r.world.modules[mi as int].names;
    function_wants(names, names.len() as int).wants + global_wants(r.named_globals, mi, r.named_globals.len() as int)
        + field_wants(r, mi, r.named_fields.len() as int)
}

fn push_want(out: &mut Vec<Want>, w: Want)
    ensures
        final(out).deep_view() == old(out).deep_view().push(w.deep_view()),
{
    let ghost before = out.deep_view();
    let ghost x = w.deep_view();
    out.push(w);
    assert(out.deep_view() =~= before.push(x));
}

fn want_functions(m: &Module) -> (r: Vec<Want>)
    ensures
        r.deep_view() == function_wants(m.deep_view().names, m.deep_view().names.len() as int).wants,
{
    let ghost ns = m.deep_view().names;
    let mut out: Vec<Want> = Vec::new();
    let mut seen: Table<String, ()> = Table::new();
    let mut i: usize = 0;
    assert(out.deep_view() =~= Seq::empty());
    while i < m.names.len()
        invariant
            ns == m.names.deep_view(),
            i <= ns.len(),
            function_wants(ns, i as int) == (Functions { wants: out.deep_view(), seen: seen.deep_view() }),
        decreases ns.len() - i,
    {
        let rva = *m.names.key_at(i);
        let n = m.names.value_at(i);
        assert((rva, n.deep_view()) == ns[i as int]);
        if n.source.reaches(NameSrc::Signature) && !seen.contains(&n.name) {
            push_want(&mut out, Want::Func { name: n.name.clone(), rva });
            seen.insert(n.name.clone(), ());
        }
        i += 1;
    }
    out
}

fn want_globals(r: &Report, mi: usize, out: &mut Vec<Want>)
    ensures
        final(out).deep_view() == old(out).deep_view() + global_wants(
            r.deep_view().named_globals,
            mi,
            r.deep_view().named_globals.len() as int,
        ),
{
    let ghost before = out.deep_view();
    let ghost gs = r.deep_view().named_globals;
    let mut i: usize = 0;
    assert(before + Seq::<WantV>::empty() =~= before);
    while i < r.named_globals.len()
        invariant
            gs == r.named_globals.deep_view(),
            i <= gs.len(),
            out.deep_view() == before + global_wants(gs, mi, i as int),
        decreases gs.len() - i,
    {
        let key = r.named_globals.key_at(i);
        assert(crate::table::Key::key(key) == (key.0, key.1));
        let name = r.named_globals.value_at(i);
        assert(((key.0, key.1), name@) == gs[i as int]);
        if key.0 == mi {
            let ghost part = global_wants(gs, mi, i as int);
            let w = Want::Global { name: name.clone(), rva: key.1 };
            let ghost x = w.deep_view();
            push_want(out, w);
            assert(before + part.push(x) =~= (before + part).push(x));
        }
        i += 1;
    }
}

fn want_class(class: &str, fields: &Table<i32, Vec<NamedField>>, out: &mut Vec<Want>)
    ensures
        final(out).deep_view() == old(out).deep_view() + class_wants(
            class@,
            fields.deep_view(),
            fields.deep_view().len() as int,
        ),
{
    let ghost before = out.deep_view();
    let ghost fs = fields.deep_view();
    let mut i: usize = 0;
    assert(before + Seq::<WantV>::empty() =~= before);
    while i < fields.len()
        invariant
            fs == fields.deep_view(),
            i <= fs.len(),
            out.deep_view() == before + class_wants(class@, fs, i as int),
        decreases fs.len() - i,
    {
        let o = *fields.key_at(i);
        let list = fields.value_at(i);
        let ghost l = list.deep_view();
        assert((o, l) == fs[i as int]);
        let ghost mid = out.deep_view();
        assert(mid + Seq::<WantV>::empty() =~= mid);
        let mut k: usize = 0;
        while k < list.len()
            invariant
                l == list.deep_view(),
                k <= list@.len(),
                out.deep_view() == mid + offset_wants(class@, o, l, k as int),
            decreases list@.len() - k,
        {
            assert(list@[k as int].deep_view() == l[k as int]);
            let ghost part = offset_wants(class@, o, l, k as int);
            let name = scoped_name(class, list[k].name.as_str());
            let w = Want::Field { name, class: class.to_owned(), offset: o };
            let ghost x = w.deep_view();
            push_want(out, w);
            assert(mid + part.push(x) =~= (mid + part).push(x));
            k += 1;
        }
        proof {
            let a = class_wants(class@, fs, i as int);
            let b = offset_wants(class@, o, l, k as int);
            assert(before + (a + b) =~= (before + a) + b);
        }
        i += 1;
    }
}

fn find_field_module(r: &Report, class: &String) -> (m: usize)
    ensures
        m == r.deep_view().field_module(class@),
{
    match r.world.classes.get(class) {
        Some(c) => match c.module {
            Some(m) => m,
            None => r.exe,
        },
        None => r.exe,
    }
}

fn want_fields(r: &Report, mi: usize, out: &mut Vec<Want>)
    ensures
        final(out).deep_view() == old(out).deep_view() + field_wants(
            r.deep_view(),
            mi,
            r.deep_view().named_fields.len() as int,
        ),
{
    let ghost before = out.deep_view();
    let ghost rv = r.deep_view();
    let mut i: usize = 0;
    assert(before + Seq::<WantV>::empty() =~= before);
    while i < r.named_fields.len()
        invariant
            rv == r.deep_view(),
            i <= rv.named_fields.len(),
            out.deep_view() == before + field_wants(rv, mi, i as int),
        decreases rv.named_fields.len() - i,
    {
        let class = r.named_fields.key_at(i);
        let fields = r.named_fields.value_at(i);
        let ghost fs = fields.deep_view();
        assert((class@, fs) == rv.named_fields[i as int]);
        if find_field_module(r, class) == mi {
            let ghost a = field_wants(rv, mi, i as int);
            let ghost b = class_wants(class@, fs, fs.len() as int);
            want_class(class.as_str(), fields, out);
            assert(before + (a + b) =~= (before + a) + b);
        }
        i += 1;
    }
}

fn wants_of(r: &Report, mi: usize) -> (w: Vec<Want>)
    requires
        mi < r.world.modules@.len(),
    ensures
        w.deep_view() == wants_from(r.deep_view(), mi),
{
    assert(r.world.modules@[mi as int].deep_view() == r.deep_view().world.modules[mi as int]);
    let mut out = want_functions(&r.world.modules[mi]);
    want_globals(r, mi, &mut out);
    want_fields(r, mi, &mut out);
    out
}

// ---------------------------------------------------------------------------
// Patterns.

/// Patterns, and the names for which none is unique.
pub ghost struct Patterns {
    pub found: Seq<SigV>,
    pub failed: Seq<Seq<char>>,
}

impl Patterns {
    /// The patterns with those of the first `n` answers.
    pub open spec fn with_answers(self, list: Seq<(Seq<char>, Option<SigV>)>, n: int) -> Patterns
        decreases n,
    {
        if n <= 0 {
            self
        } else {
            let s = self.with_answers(list, n - 1);
            match list[n - 1].1 {
                Some(sig) => Patterns { found: s.found.push(sig), ..s },
                None => Patterns { failed: s.failed.push(list[n - 1].0), ..s },
            }
        }
    }
}

/// The patterns for everything wanted from the first `n` modules.
pub open spec fn patterns(r: ReportV, n: int) -> Patterns
    decreases n,
{
    if n <= 0 {
        Patterns { found: Seq::empty(), failed: Seq::empty() }
    } else {
        let list = generate::generated(r.world, n - 1, wants_from(r, (n - 1) as usize));
        patterns(r, n - 1).with_answers(list, list.len() as int)
    }
}

pub open spec fn sig_keys(s: Seq<SigV>) -> Seq<(Seq<char>, Kind, Seq<char>)> {
    Seq::new(s.len(), |i: int| (s[i].module, s[i].kind, s[i].name))
}

/// Signatures by module, kind and name.
pub open spec fn sorted_sigs(s: Seq<SigV>) -> Seq<SigV> {
    table::sorted_by(sig_keys(s), s)
}

fn collect_patterns(r: &Report) -> (p: (Vec<Sig>, Vec<String>))
    requires
        r.deep_view().wf(),
    ensures
        patterns(r.deep_view(), r.deep_view().world.modules.len() as int) == (Patterns {
            found: p.0.deep_view(),
            failed: p.1.deep_view(),
        }),
{
    let ghost rv = r.deep_view();
    let mut found: Vec<Sig> = Vec::new();
    let mut failed: Vec<String> = Vec::new();
    assert(found.deep_view() =~= Seq::empty());
    assert(failed.deep_view() =~= Seq::empty());
    let mut mi: usize = 0;
    while mi < r.world.modules.len()
        invariant
            rv == r.deep_view(),
            mi <= r.world.modules@.len(),
            patterns(rv, mi as int) == (Patterns { found: found.deep_view(), failed: failed.deep_view() }),
        decreases r.world.modules@.len() - mi,
    {
        let w = wants_of(r, mi);
        let ghost start = patterns(rv, mi as int);
        let list = generate::generate(&r.world, mi, &w);
        let ghost l = list.deep_view();
        let mut i: usize = 0;
        while i < list.len()
            invariant
                l == list.deep_view(),
                i <= list@.len(),
                start.with_answers(l, i as int) == (Patterns {
                    found: found.deep_view(),
                    failed: failed.deep_view(),
                }),
            decreases list@.len() - i,
        {
            assert(list@[i as int].deep_view() == l[i as int]);
            match &list[i].1 {
                Some(s) => {
                    let ghost before = found.deep_view();
                    let c = s.clone();
                    let ghost x = c.deep_view();
                    found.push(c);
                    assert(found.deep_view() =~= before.push(x));
                },
                None => {
                    text::push_text(&mut failed, list[i].0.clone());
                },
            }
            i += 1;
        }
        mi += 1;
    }
    (found, failed)
}

fn sort_sigs(sigs: Vec<Sig>) -> (r: Vec<Sig>)
    ensures
        r.deep_view() == sorted_sigs(sigs.deep_view()),
{
    let ghost s = sigs.deep_view();
    let mut by: Vec<(String, Kind, String)> = Vec::new();
    let mut i: usize = 0;
    while i < sigs.len()
        invariant
            s == sigs.deep_view(),
            i <= sigs@.len(),
            by@.len() == i,
            forall|k: int| 0 <= k < i ==> crate::table::Key::key(&(#[trigger] by@[k])) == sig_keys(s)[k],
        decreases sigs@.len() - i,
    {
        assert(sigs@[i as int].deep_view() == s[i as int]);
        let key = (sigs[i].module.clone(), sigs[i].kind, sigs[i].name.clone());
        assert(crate::table::Key::key(&key) == (key.0@, key.1, key.2@));
        by.push(key);
        i += 1;
    }
    assert(table::key_models(by@) =~= sig_keys(s));
    table::stable_sort(by, sigs)
}

// ---------------------------------------------------------------------------
// Fallbacks for what could not get a unique pattern.

/// Vtable slot of each function.
pub type Slots = Seq<(u32, (Seq<char>, u32, usize))>;

/// The slots with one more; the slot of a class that owns the function
/// replaces that of another class.
pub open spec fn with_slot(s: Slots, m: ModuleV, class: Seq<char>, vt_off: u32, index: usize, e: u32) -> Slots {
    let t = m.resolve_entry(e).0;
    let owned = table::get(m.owner, t) matches Some(o) && o.class == class;
    match table::get(s, t) {
        None => table::put(s, t, (class, vt_off, index)),
        Some(x) => if owned && x.0 != class {
            table::put(s, t, (class, vt_off, index))
        } else {
            s
        },
    }
}

pub open spec fn slots_in_vtable(s: Slots, m: ModuleV, class: Seq<char>, v: VtableV, n: int) -> Slots
    decreases n,
{
    if n <= 0 {
        s
    } else {
        with_slot(slots_in_vtable(s, m, class, v, n - 1), m, class, v.offset, (n - 1) as usize, v.entries[n - 1])
    }
}

pub open spec fn slots_in_class(s: Slots, m: ModuleV, c: ClassV, n: int) -> Slots
    decreases n,
{
    if n <= 0 {
        s
    } else {
        let v = c.vtables[n - 1];
        slots_in_vtable(slots_in_class(s, m, c, n - 1), m, c.name, v, v.entries.len() as int)
    }
}

/// The slots of the functions in the vtables of the first `n` classes.
pub open spec fn slots_of(m: ModuleV, n: int) -> Slots
    decreases n,
{
    if n <= 0 {
        Seq::empty()
    } else {
        let c = m.rtti.classes[n - 1].1;
        slots_in_class(slots_of(m, n - 1), m, c, c.vtables.len() as int)
    }
}

/// Addresses of the first `n` names that a signature or something better gave.
pub open spec fn addresses(names: Seq<(u32, NameV)>, n: int) -> Seq<(Seq<char>, u32)>
    decreases n,
{
    if n <= 0 {
        Seq::empty()
    } else {
        let s = addresses(names, n - 1);
        let (rva, name) = names[n - 1];
        if name.source.at_least(NameSrc::Signature) {
            table::put(s, name.name, rva)
        } else {
            s
        }
    }
}

/// Those of the first `n` signatures that are for fields, by name.
pub open spec fn signed_fields(s: Seq<SigV>, n: int) -> Seq<(Seq<char>, ())>
    decreases n,
{
    if n <= 0 {
        Seq::empty()
    } else if s[n - 1].kind == Kind::Field {
        table::put(signed_fields(s, n - 1), s[n - 1].name, ())
    } else {
        signed_fields(s, n - 1)
    }
}

/// The first offset, from index `i` on, that a name is given to.
pub open spec fn named_at(fields: Seq<(i32, Seq<NamedFieldV>)>, name: Seq<char>, i: int) -> Option<int>
    decreases fields.len() - i,
{
    if i < 0 || i >= fields.len() {
        None
    } else if crate::dump::is_named(fields[i].1, name) {
        Some(i)
    } else {
        named_at(fields, name, i + 1)
    }
}

/// The first of the names, from index `i` on, that has a signature.
pub open spec fn signed_name(
    signed: Seq<(Seq<char>, ())>,
    class: Seq<char>,
    list: Seq<NamedFieldV>,
    i: int,
) -> Option<Seq<char>>
    decreases list.len() - i,
{
    if i < 0 || i >= list.len() {
        None
    } else if table::holds(signed, scoped(class, list[i].name)) {
        Some(scoped(class, list[i].name))
    } else {
        signed_name(signed, class, list, i + 1)
    }
}

/// The nearest signed field at an index below `i`.
pub open spec fn anchor_below(
    signed: Seq<(Seq<char>, ())>,
    class: Seq<char>,
    fields: Seq<(i32, Seq<NamedFieldV>)>,
    i: int,
) -> Option<(i32, Seq<char>)>
    decreases i,
{
    if i <= 0 {
        None
    } else {
        match signed_name(signed, class, fields[i - 1].1, 0) {
            Some(n) => Some((fields[i - 1].0, n)),
            None => anchor_below(signed, class, fields, i - 1),
        }
    }
}

/// The nearest signed field at index `i` or above.
pub open spec fn anchor_from(
    signed: Seq<(Seq<char>, ())>,
    class: Seq<char>,
    fields: Seq<(i32, Seq<NamedFieldV>)>,
    i: int,
) -> Option<(i32, Seq<char>)>
    decreases fields.len() - i,
{
    if i < 0 || i >= fields.len() {
        None
    } else {
        match signed_name(signed, class, fields[i].1, 0) {
            Some(n) => Some((fields[i].0, n)),
            None => anchor_from(signed, class, fields, i + 1),
        }
    }
}

/// The record that places a field relative to the nearest signed field of its
/// class, the one before it where there is one.
pub open spec fn relative_record(
    fields: FieldNames,
    signed: Seq<(Seq<char>, ())>,
    name: Seq<char>,
) -> Option<ExtraV> {
    match names::member_parts(name) {
        None => None,
        Some((class, field)) => match table::get(fields, class) {
            None => None,
            Some(of_class) => match named_at(of_class, field, 0) {
                None => None,
                Some(i) => {
                    let anchor = match anchor_below(signed, class, of_class, i) {
                        Some(a) => Some(a),
                        None => anchor_from(signed, class, of_class, i + 1),
                    };
                    match anchor {
                        Some((o, a)) => Some(
                            ExtraV::Rel { name, anchor: a, delta: of_class[i].0.wrapping_sub(o) as i64 },
                        ),
                        None => None,
                    }
                },
            },
        },
    }
}

/// The record that finds a function by its vtable slot.
pub open spec fn slot_record(slots: Slots, by_name: Seq<(Seq<char>, u32)>, name: Seq<char>) -> Option<ExtraV> {
    match table::get(by_name, name) {
        None => None,
        Some(rva) => match table::get(slots, rva) {
            Some((class, vt_off, index)) => Some(ExtraV::VSlot { name, class, vt_off, index }),
            None => None,
        },
    }
}

/// What fallback records are made from.
pub ghost struct Sources {
    pub slots: Slots,
    pub by_name: Seq<(Seq<char>, u32)>,
    pub signed: Seq<(Seq<char>, ())>,
    pub fields: FieldNames,
}

impl Sources {
    pub open spec fn record(self, name: Seq<char>) -> Option<ExtraV> {
        match slot_record(self.slots, self.by_name, name) {
            Some(e) => Some(e),
            None => relative_record(self.fields, self.signed, name),
        }
    }

    /// Records for the first `n` names.
    pub open spec fn records(self, names: Seq<Seq<char>>, n: int) -> Seq<ExtraV>
        decreases n,
    {
        if n <= 0 {
            Seq::empty()
        } else {
            let s = self.records(names, n - 1);
            match self.record(names[n - 1]) {
                Some(e) => s.push(e),
                None => s,
            }
        }
    }

    /// Those of the first `n` names that get no record.
    pub open spec fn left(self, names: Seq<Seq<char>>, n: int) -> Seq<Seq<char>>
        decreases n,
    {
        if n <= 0 {
            Seq::empty()
        } else {
            let s = self.left(names, n - 1);
            match self.record(names[n - 1]) {
                Some(_) => s,
                None => s.push(names[n - 1]),
            }
        }
    }
}

/// What fallback records for a report are made from.
pub open spec fn sources(r: ReportV, found: Seq<SigV>) -> Sources {
    let m = r.world.modules[r.exe as int];
    Sources {
        slots: slots_of(m, m.rtti.classes.len() as int),
        by_name: addresses(m.names, m.names.len() as int),
        signed: signed_fields(found, found.len() as int),
        fields: r.named_fields,
    }
}

/// Signatures, fallback records, and the names left without either.
pub open spec fn signatures(r: ReportV) -> (Seq<SigV>, Seq<ExtraV>, Seq<Seq<char>>) {
    let p = patterns(r, r.world.modules.len() as int);
    let found = sorted_sigs(p.found);
    let s = sources(r, found);
    (found, s.records(p.failed, p.failed.len() as int), s.left(p.failed, p.failed.len() as int))
}

fn add_slot(s: &mut Table<u32, (String, u32, usize)>, m: &Module, class: &str, vt_off: u32, index: usize, e: u32)
    ensures
        final(s).deep_view() == with_slot(old(s).deep_view(), m.deep_view(), class@, vt_off, index, e),
{
    let (t, _) = m.resolve_entry(e);
    let owned = match m.owner.get(&t) {
        Some(o) => text::same(o.class.as_str(), class),
        None => false,
    };
    let replace = match s.get(&t) {
        None => true,
        Some(x) => owned && !text::same(x.0.as_str(), class),
    };
    if replace {
        s.insert(t, (class.to_owned(), vt_off, index));
    }
}

fn add_class_slots(s: &mut Table<u32, (String, u32, usize)>, m: &Module, c: &Class)
    ensures
        final(s).deep_view() == slots_in_class(
            old(s).deep_view(),
            m.deep_view(),
            c.deep_view(),
            c.deep_view().vtables.len() as int,
        ),
{
    let ghost s0 = s.deep_view();
    let ghost mv = m.deep_view();
    let ghost cv = c.deep_view();
    let mut j: usize = 0;
    while j < c.vtables.len()
        invariant
            mv == m.deep_view(),
            cv == c.deep_view(),
            j <= c.vtables@.len(),
            s.deep_view() == slots_in_class(s0, mv, cv, j as int),
        decreases c.vtables@.len() - j,
    {
        let v = &c.vtables[j];
        let ghost vv = v.deep_view();
        assert(vv == cv.vtables[j as int]);
        let ghost s1 = s.deep_view();
        let mut k: usize = 0;
        while k < v.entries.len()
            invariant
                mv == m.deep_view(),
                cv == c.deep_view(),
                vv == v.deep_view(),
                k <= v.entries@.len(),
                s.deep_view() == slots_in_vtable(s1, mv, cv.name, vv, k as int),
            decreases v.entries@.len() - k,
        {
            add_slot(s, m, c.name.as_str(), v.offset, k, v.entries[k]);
            k += 1;
        }
        j += 1;
    }
}

fn find_slots(m: &Module) -> (r: Table<u32, (String, u32, usize)>)
    ensures
        r.deep_view() == slots_of(m.deep_view(), m.deep_view().rtti.classes.len() as int),
{
    let ghost mv = m.deep_view();
    let mut s: Table<u32, (String, u32, usize)> = Table::new();
    let mut i: usize = 0;
    while i < m.rtti.classes.len()
        invariant
            mv == m.deep_view(),
            i <= mv.rtti.classes.len(),
            s.deep_view() == slots_of(mv, i as int),
        decreases mv.rtti.classes.len() - i,
    {
        add_class_slots(&mut s, m, m.rtti.classes.value_at(i));
        i += 1;
    }
    s
}

fn find_addresses(m: &Module) -> (r: Table<String, u32>)
    ensures
        r.deep_view() == addresses(m.deep_view().names, m.deep_view().names.len() as int),
{
    let ghost ns = m.deep_view().names;
    let mut out: Table<String, u32> = Table::new();
    let mut i: usize = 0;
    while i < m.names.len()
        invariant
            ns == m.names.deep_view(),
            i <= ns.len(),
            out.deep_view() == addresses(ns, i as int),
        decreases ns.len() - i,
    {
        let rva = *m.names.key_at(i);
        let n = m.names.value_at(i);
        assert((rva, n.deep_view()) == ns[i as int]);
        if n.source.reaches(NameSrc::Signature) {
            out.insert(n.name.clone(), rva);
        }
        i += 1;
    }
    out
}

fn find_signed(sigs: &Vec<Sig>) -> (r: Table<String, ()>)
    ensures
        r.deep_view() == signed_fields(sigs.deep_view(), sigs@.len() as int),
{
    let ghost s = sigs.deep_view();
    let mut out: Table<String, ()> = Table::new();
    let mut i: usize = 0;
    while i < sigs.len()
        invariant
            s == sigs.deep_view(),
            i <= sigs@.len(),
            out.deep_view() == signed_fields(s, i as int),
        decreases sigs@.len() - i,
    {
        assert(sigs@[i as int].deep_view() == s[i as int]);
        if sigs[i].kind == Kind::Field {
            out.insert(sigs[i].name.clone(), ());
        }
        i += 1;
    }
    out
}

fn find_named(fields: &Table<i32, Vec<NamedField>>, name: &str) -> (r: Option<usize>)
    ensures
        match r {
            Some(i) => named_at(fields.deep_view(), name@, 0) == Some(i as int) && i < fields.deep_view().len(),
            None => named_at(fields.deep_view(), name@, 0) is None,
        },
{
    let ghost fs = fields.deep_view();
    let mut i: usize = 0;
    while i < fields.len()
        invariant
            fs == fields.deep_view(),
            i <= fs.len(),
            named_at(fs, name@, 0) == named_at(fs, name@, i as int),
        decreases fs.len() - i,
    {
        if crate::dump::lists_name(fields.value_at(i), name) {
            return Some(i);
        }
        i += 1;
    }
    None
}

fn find_signed_name(signed: &Table<String, ()>, class: &str, list: &Vec<NamedField>) -> (r: Option<String>)
    ensures
        r.deep_view() == signed_name(signed.deep_view(), class@, list.deep_view(), 0),
{
    let ghost s = signed.deep_view();
    let ghost l = list.deep_view();
    let mut i: usize = 0;
    while i < list.len()
        invariant
            s == signed.deep_view(),
            l == list.deep_view(),
            i <= list@.len(),
            signed_name(s, class@, l, 0) == signed_name(s, class@, l, i as int),
        decreases list@.len() - i,
    {
        assert(list@[i as int].deep_view() == l[i as int]);
        let n = scoped_name(class, list[i].name.as_str());
        if signed.contains(&n) {
            return Some(n);
        }
        i += 1;
    }
    None
}

fn find_anchor(
    signed: &Table<String, ()>,
    class: &str,
    fields: &Table<i32, Vec<NamedField>>,
    at: usize,
) -> (r: Option<(i32, String)>)
    requires
        at < fields.deep_view().len(),
    ensures
        r.deep_view() == match anchor_below(signed.deep_view(), class@, fields.deep_view(), at as int) {
            Some(a) => Some(a),
            None => anchor_from(signed.deep_view(), class@, fields.deep_view(), at + 1),
        },
{
    let ghost s = signed.deep_view();
    let ghost fs = fields.deep_view();
    let mut i: usize = at;
    while i > 0
        invariant
            s == signed.deep_view(),
            fs == fields.deep_view(),
            i <= at < fs.len(),
            anchor_below(s, class@, fs, at as int) == anchor_below(s, class@, fs, i as int),
        decreases i,
    {
        i -= 1;
        if let Some(n) = find_signed_name(signed, class, fields.value_at(i)) {
            return Some((*fields.key_at(i), n));
        }
    }
    let count = fields.len();
    i = at + 1;
    while i < count
        invariant
            s == signed.deep_view(),
            fs == fields.deep_view(),
            count == fs.len(),
            anchor_below(s, class@, fs, at as int) is None,
            anchor_from(s, class@, fs, at + 1) == anchor_from(s, class@, fs, i as int),
        decreases count - i,
    {
        if let Some(n) = find_signed_name(signed, class, fields.value_at(i)) {
            return Some((*fields.key_at(i), n));
        }
        i += 1;
    }
    None
}

fn make_relative(
    fields: &Table<String, Table<i32, Vec<NamedField>>>,
    signed: &Table<String, ()>,
    name: &str,
) -> (r: Option<Extra>)
    ensures
        r.deep_view() == relative_record(fields.deep_view(), signed.deep_view(), name@),
{
    let (class, field) = match names::split_member(name) {
        Some(p) => p,
        None => {
            return None;
        },
    };
    let of_class = match fields.get(&class.to_owned()) {
        Some(f) => f,
        None => {
            return None;
        },
    };
    let i = match find_named(of_class, field) {
        Some(i) => i,
        None => {
            return None;
        },
    };
    match find_anchor(signed, class, of_class, i) {
        Some((o, a)) => Some(
            Extra::Rel { name: name.to_owned(), anchor: a, delta: of_class.key_at(i).wrapping_sub(o) as i64 },
        ),
        None => None,
    }
}

fn make_slot(
    slots: &Table<u32, (String, u32, usize)>,
    by_name: &Table<String, u32>,
    name: &str,
) -> (r: Option<Extra>)
    ensures
        r.deep_view() == slot_record(slots.deep_view(), by_name.deep_view(), name@),
{
    match by_name.get(&name.to_owned()) {
        None => None,
        Some(rva) => match slots.get(rva) {
            Some(x) => Some(
                Extra::VSlot { name: name.to_owned(), class: x.0.clone(), vt_off: x.1, index: x.2 },
            ),
            None => None,
        },
    }
}

/// Signatures for everything that has a real name in a report, fallback
/// records for what no pattern finds, and the names left without either.
pub fn make_signatures(r: &Report) -> (out: (Vec<Sig>, Vec<Extra>, Vec<String>))
    requires
        r.deep_view().wf(),
    ensures
        out.deep_view() == signatures(r.deep_view()),
{
    let ghost rv = r.deep_view();
    let (found, failed) = collect_patterns(r);
    let found = sort_sigs(found);
    let m = &r.world.modules[r.exe];
    assert(m.deep_view() == rv.world.modules[rv.exe as int]);
    let slots = find_slots(m);
    let by_name = find_addresses(m);
    let signed = find_signed(&found);
    let ghost src = sources(rv, found.deep_view());
    let ghost f = failed.deep_view();
    let mut extras: Vec<Extra> = Vec::new();
    let mut left: Vec<String> = Vec::new();
    assert(extras.deep_view() =~= Seq::empty());
    assert(left.deep_view() =~= Seq::empty());
    let mut i: usize = 0;
    while i < failed.len()
        invariant
            f == failed.deep_view(),
            i <= failed@.len(),
            src == (Sources {
                slots: slots.deep_view(),
                by_name: by_name.deep_view(),
                signed: signed.deep_view(),
                fields: r.named_fields.deep_view(),
            }),
            extras.deep_view() == src.records(f, i as int),
            left.deep_view() == src.left(f, i as int),
        decreases failed@.len() - i,
    {
        let name = failed[i].as_str();
        assert(name@ == f[i as int]);
        let record = match make_slot(&slots, &by_name, name) {
            Some(e) => Some(e),
            None => make_relative(&r.named_fields, &signed, name),
        };
        match record {
            Some(e) => {
                let ghost before = extras.deep_view();
                let ghost x = e.deep_view();
                extras.push(e);
                assert(extras.deep_view() =~= before.push(x));
            },
            None => {
                text::push_text(&mut left, name.to_owned());
            },
        }
        i += 1;
    }
    (found, extras, left)
}

// ---------------------------------------------------------------------------
// Laws.

/// The names of signatures.
pub open spec fn sig_names(s: Seq<SigV>) -> Seq<Seq<char>> {
    s.map_values(|x: SigV| x.name)
}

/// The name that a fallback record is for.
pub open spec fn record_name(e: ExtraV) -> Seq<char> {
    match e {
        ExtraV::VSlot { name, .. } => name,
        ExtraV::Rel { name, .. } => name,
        ExtraV::RelSub { name, .. } => name,
    }
}

/// The names of fallback records.
pub open spec fn record_names(s: Seq<ExtraV>) -> Seq<Seq<char>> {
    s.map_values(|e: ExtraV| record_name(e))
}

impl Sources {
    proof fn records_or_left(self, names: Seq<Seq<char>>, n: int)
        requires
            0 <= n <= names.len(),
        ensures
            record_names(self.records(names, n)).to_multiset().add(self.left(names, n).to_multiset()) == names.take(
                n,
            ).to_multiset(),
        decreases n,
    {
        let rs = record_names(self.records(names, n));
        let ls = self.left(names, n);
        if n > 0 {
            self.records_or_left(names, n - 1);
            let x = names[n - 1];
            let r0 = record_names(self.records(names, n - 1));
            let l0 = self.left(names, n - 1);
            assert(names.take(n) =~= names.take(n - 1).push(x));
            vstd::seq_lib::to_multiset_build(names.take(n - 1), x);
            if self.record(x) is Some {
                assert(rs =~= r0.push(x));
                vstd::seq_lib::to_multiset_build(r0, x);
            } else {
                assert(rs =~= r0);
                vstd::seq_lib::to_multiset_build(l0, x);
            }
            assert(rs.to_multiset().add(ls.to_multiset()) =~= names.take(n).to_multiset());
        } else {
            assert(rs =~= Seq::empty());
            assert(names.take(n) =~= Seq::empty());
            Seq::<Seq<char>>::empty().to_multiset_ensures();
            assert(rs.to_multiset().add(ls.to_multiset()) =~= names.take(n).to_multiset());
        }
    }
}

impl Patterns {
    /// The names of what is found, together with those that failed.
    pub open spec fn all_names(self) -> Multiset<Seq<char>> {
        sig_names(self.found).to_multiset().add(self.failed.to_multiset())
    }

    proof fn answers_keep_names(self, list: Seq<(Seq<char>, Option<SigV>)>, names: Seq<Seq<char>>, n: int)
        requires
            0 <= n <= list.len(),
            list.len() == names.len(),
            forall|i: int| 0 <= i < list.len() ==> (#[trigger] list[i]).0 == names[i],
            forall|i: int| 0 <= i < list.len() ==> ((#[trigger] list[i]).1 matches Some(s) ==> s.name == names[i]),
        ensures
            self.with_answers(list, n).all_names() == self.all_names().add(names.take(n).to_multiset()),
        decreases n,
    {
        let p = self.with_answers(list, n);
        if n > 0 {
            self.answers_keep_names(list, names, n - 1);
            let q = self.with_answers(list, n - 1);
            let x = names[n - 1];
            assert(list[n - 1].0 == x);
            assert(names.take(n) =~= names.take(n - 1).push(x));
            vstd::seq_lib::to_multiset_build(names.take(n - 1), x);
            let t = self.all_names();
            let m = names.take(n - 1).to_multiset();
            let f = sig_names(q.found).to_multiset();
            let g = q.failed.to_multiset();
            assert(f.add(g) == t.add(m));
            assert(t.add(m.insert(x)) =~= t.add(m).insert(x));
            if list[n - 1].1 is Some {
                assert(f.insert(x).add(g) =~= f.add(g).insert(x));
                assert(sig_names(p.found) =~= sig_names(q.found).push(x));
                vstd::seq_lib::to_multiset_build(sig_names(q.found), x);
                assert(p.failed == q.failed);
            } else {
                assert(f.add(g.insert(x)) =~= f.add(g).insert(x));
                assert(p.failed == q.failed.push(x));
                assert(p.found == q.found);
                vstd::seq_lib::to_multiset_build(q.failed, x);
            }
        } else {
            assert(names.take(n) =~= Seq::empty());
            Seq::<Seq<char>>::empty().to_multiset_ensures();
            assert(names.take(n).to_multiset() =~= Multiset::empty());
        }
        assert(p.all_names() =~= self.all_names().add(names.take(n).to_multiset()));
    }
}

/// The names of requests.
pub open spec fn want_names(s: Seq<WantV>) -> Seq<Seq<char>> {
    s.map_values(|w: WantV| w.name())
}

/// The names that are wanted from the first `n` modules.
pub open spec fn wanted(r: ReportV, n: int) -> Seq<Seq<char>>
    decreases n,
{
    if n <= 0 {
        Seq::empty()
    } else {
        wanted(r, n - 1) + want_names(wants_from(r, (n - 1) as usize))
    }
}

proof fn patterns_keep_names(r: ReportV, n: int)
    requires
        0 <= n,
    ensures
        patterns(r, n).all_names() == wanted(r, n).to_multiset(),
    decreases n,
{
    if n > 0 {
        patterns_keep_names(r, n - 1);
        let ws = wants_from(r, (n - 1) as usize);
        let list = generate::generated(r.world, n - 1, ws);
        let names = want_names(ws);
        let m = r.world.modules[n - 1];
        let gs = generate::global_sites(m.code.funcs, m.code.funcs.len() as int);
        let fs = generate::field_sites(r.world, m, generate::wanted_fields(ws, ws.len() as int), m.owner.len() as int);
        assert forall|i: int| 0 <= i < list.len() implies (#[trigger] list[i]).0 == names[i] && (list[i].1 matches Some(s)
            ==> s.name == names[i]) by {
            generate::signature_keeps_name(m, gs, fs, ws[i]);
        }
        patterns(r, n - 1).answers_keep_names(list, names, list.len() as int);
        assert(names.take(list.len() as int) =~= names);
        vstd::seq_lib::lemma_multiset_commutative(wanted(r, n - 1), names);
    } else {
        let p = patterns(r, n);
        assert(sig_names(p.found) =~= Seq::empty());
        Seq::<Seq<char>>::empty().to_multiset_ensures();
        assert(p.all_names() =~= wanted(r, n).to_multiset());
    }
}

/// Everything that is wanted gets a signature or a fallback record, or is
/// among the names left; nothing gets two of these: taken together, the three
/// hold each name as often as it is wanted.
pub proof fn nothing_is_lost(r: ReportV)
    requires
        wanted(r, r.world.modules.len() as int).len() <= usize::MAX,
    ensures
        ({
            let (found, records, left) = signatures(r);
            let names = wanted(r, r.world.modules.len() as int);
            &&& sig_names(found).to_multiset().add(record_names(records).to_multiset()).add(left.to_multiset())
                == names.to_multiset()
            &&& found.len() + records.len() + left.len() == names.len()
            &&& forall|i: int|
                0 <= i < names.len() ==> sig_names(found).contains(#[trigger] names[i]) || record_names(records).contains(
                    names[i],
                ) || left.contains(names[i])
        }),
{
    let n = r.world.modules.len() as int;
    let names = wanted(r, n);
    patterns_keep_names(r, n);
    let p = patterns(r, n);
    sig_names(p.found).to_multiset_ensures();
    p.failed.to_multiset_ensures();
    names.to_multiset_ensures();
    assert(p.all_names().len() == names.len());
    let found = sorted_sigs(p.found);
    table::sorting_keeps_values(sig_keys(p.found), p.found, |x: SigV| x.name);
    let s = sources(r, found);
    let count = p.failed.len() as int;
    s.records_or_left(p.failed, count);
    assert(p.failed.take(count) =~= p.failed);
    let records = s.records(p.failed, count);
    let left = s.left(p.failed, count);
    let a = sig_names(found).to_multiset();
    let b = record_names(records).to_multiset();
    let c = left.to_multiset();
    assert(a.add(b).add(c) =~= names.to_multiset());
    sig_names(found).to_multiset_ensures();
    record_names(records).to_multiset_ensures();
    left.to_multiset_ensures();
    assert(a.add(b).add(c).len() == a.len() + b.len() + c.len());
    assert forall|i: int| 0 <= i < names.len() implies sig_names(found).contains(#[trigger] names[i]) || record_names(
        records,
    ).contains(names[i]) || left.contains(names[i]) by {
        assert(names.contains(names[i]));
        assert(names.to_multiset().count(names[i]) > 0);
    }
}

/// Signatures come out by module, then kind, then name.
pub proof fn signatures_are_sorted(r: ReportV, a: int, b: int)
    requires
        patterns(r, r.world.modules.len() as int).found.len() <= usize::MAX,
        0 <= a < b < signatures(r).0.len(),
    ensures
        ({
            let k = sig_keys(signatures(r).0);
            k[a] == k[b] || crate::table::Ordered::before(k[a], k[b])
        }),
{
    let f = patterns(r, r.world.modules.len() as int).found;
    table::queued_rows(sig_keys(f), f, 0);
    table::sorting_is_stable(sig_keys(f), f, a, b);
}

} // verus!
