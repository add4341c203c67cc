//! Orchestration: apply names (signatures, user names) to loaded modules and
//! build the program model.

use vstd::prelude::*;
use vstd::string::StringExecFns;

use crate::model::{Module, ModuleV, NameSrc, NameV};
use crate::names;
use crate::num;
use crate::sigs;
use crate::sigs::{Extra, ExtraV, Kind, Sig, SigResult, SigResultV, SigV};
use crate::table;
use crate::table::Table;
use crate::text;
use crate::world;
use crate::world::{World, WorldV};

verus! {

#[derive(Debug)]
pub struct NamedField {
    pub name: String,
    pub ty: String,
    pub size: u64,
    pub source: NameSrc,
}

/// Model of a named field.
pub ghost struct NamedFieldV {
    pub name: Seq<char>,
    pub ty: Seq<char>,
    pub size: u64,
    pub source: NameSrc,
}

impl DeepView for NamedField {
    type V = NamedFieldV;

    open spec fn deep_view(&self) -> NamedFieldV {
        NamedFieldV { name: self.name@, ty: self.ty@, size: self.size, source: self.source }
    }
}

/// class -> offset -> names.
pub type FieldNames = Seq<(Seq<char>, Seq<(i32, Seq<NamedFieldV>)>)>;

/// (module, address) -> name.
pub type GlobalNames = Seq<((usize, u32), Seq<char>)>;

pub struct Report {
    pub world: World,
    pub exe: usize,
    /// class -> offset -> names.
    pub named_fields: Table<String, Table<i32, Vec<NamedField>>>,
    pub named_globals: Table<(usize, u32), String>,
    pub sig_results: Vec<SigResult>,
    /// Fallback records that could be resolved.
    pub fallback_names: usize,
    pub user_names: usize,
}

/// Model of a report.
pub ghost struct ReportV {
    pub world: WorldV,
    pub exe: usize,
    pub named_fields: FieldNames,
    pub named_globals: GlobalNames,
    pub sig_results: Seq<SigResultV>,
    pub fallback_names: usize,
    pub user_names: usize,
}

impl DeepView for Report {
    type V = ReportV;

    open spec fn deep_view(&self) -> ReportV {
        ReportV {
            world: self.world.deep_view(),
            exe: self.exe,
            named_fields: self.named_fields.deep_view(),
            named_globals: self.named_globals.deep_view(),
            sig_results: self.sig_results.deep_view(),
            fallback_names: self.fallback_names,
            user_names: self.user_names,
        }
    }
}

/// Every named global is in one of the first `n` modules.
pub open spec fn globals_in(gs: GlobalNames, n: int) -> bool {
    forall|i: int| 0 <= i < gs.len() ==> (#[trigger] gs[i]).0.0 < n
}

impl ReportV {
    /// What the report says of modules is about modules that it has.
    pub open spec fn wf(self) -> bool {
        let n = self.world.modules.len() as int;
        &&& self.exe < n
        &&& globals_in(self.named_globals, n)
        &&& world::sit_in(self.world.classes, n)
    }
}

/// A field that a signature or a user names.
#[derive(Debug)]
pub struct FieldName {
    pub class: String,
    pub offset: i32,
    pub name: String,
    pub source: NameSrc,
}

/// Model of a field's name.
pub ghost struct FieldNameV {
    pub class: Seq<char>,
    pub offset: i32,
    pub name: Seq<char>,
    pub source: NameSrc,
}

impl DeepView for FieldName {
    type V = FieldNameV;

    open spec fn deep_view(&self) -> FieldNameV {
        FieldNameV { class: self.class@, offset: self.offset, name: self.name@, source: self.source }
    }
}

/// Modules and the names found for what is in them.
pub struct Naming {
    pub mods: Vec<Module>,
    pub globals: Table<(usize, u32), String>,
    pub fields: Vec<FieldName>,
}

/// Model of modules and names.
pub ghost struct NamingV {
    pub mods: Seq<ModuleV>,
    pub globals: GlobalNames,
    pub fields: Seq<FieldNameV>,
}

impl DeepView for Naming {
    type V = NamingV;

    open spec fn deep_view(&self) -> NamingV {
        NamingV {
            mods: self.mods.deep_view(),
            globals: self.globals.deep_view(),
            fields: self.fields.deep_view(),
        }
    }
}

impl NamingV {
    pub open spec fn of(mods: Seq<ModuleV>) -> NamingV {
        NamingV { mods, globals: Seq::empty(), fields: Seq::empty() }
    }

    pub open spec fn with_function(self, mi: int, rva: u32) -> NamingV {
        NamingV { mods: self.mods.update(mi, self.mods[mi].with_functions(seq![rva])), ..self }
    }

    pub open spec fn with_name(self, mi: int, rva: u32, name: Seq<char>, source: NameSrc) -> NamingV {
        NamingV { mods: self.mods.update(mi, self.mods[mi].with_name(rva, name, source, false)), ..self }
    }

    pub open spec fn with_global(self, mi: usize, rva: u32, name: Seq<char>) -> NamingV {
        NamingV { globals: table::put(self.globals, (mi, rva), name), ..self }
    }

    pub open spec fn with_field(self, class: Seq<char>, offset: i32, name: Seq<char>, source: NameSrc) -> NamingV {
        NamingV { fields: self.fields.push(FieldNameV { class, offset, name, source }), ..self }
    }

    /// A field under its full name; a name without a class is left out.
    pub open spec fn with_member(self, full: Seq<char>, offset: i32, source: NameSrc) -> NamingV {
        match names::member_parts(full) {
            Some((c, f)) => self.with_field(c, offset, f, source),
            None => self,
        }
    }
}

impl Naming {
    fn add_function(&mut self, mi: usize, rva: u32)
        requires
            mi < old(self).mods@.len(),
        ensures
            final(self).deep_view() == old(self).deep_view().with_function(mi as int, rva),
            final(self).mods@.len() == old(self).mods@.len(),
    {
        let ghost before = self.mods.deep_view();
        let list: Vec<u32> = vec![rva];
        assert(list@ =~= seq![rva]);
        self.mods[mi].add_functions(&list);
        assert(self.mods.deep_view() =~= before.update(mi as int, before[mi as int].with_functions(seq![rva])));
    }

    fn set_name(&mut self, mi: usize, rva: u32, name: String, source: NameSrc)
        requires
            mi < old(self).mods@.len(),
        ensures
            final(self).deep_view() == old(self).deep_view().with_name(mi as int, rva, name@, source),
            final(self).mods@.len() == old(self).mods@.len(),
    {
        let ghost before = self.mods.deep_view();
        let ghost n = name@;
        self.mods[mi].set_name(rva, name, source, false);
        assert(self.mods.deep_view() =~= before.update(mi as int, before[mi as int].with_name(rva, n, source, false)));
    }

    fn set_global(&mut self, mi: usize, rva: u32, name: String)
        ensures
            final(self).deep_view() == old(self).deep_view().with_global(mi, rva, name@),
            final(self).mods@.len() == old(self).mods@.len(),
    {
        let key = (mi, rva);
        assert(crate::table::Key::key(&key) == (mi, rva));
        self.globals.insert(key, name);
    }

    fn add_member(&mut self, full: &str, offset: i32, source: NameSrc) -> (r: bool)
        ensures
            final(self).deep_view() == old(self).deep_view().with_member(full@, offset, source),
            final(self).mods@.len() == old(self).mods@.len(),
            r == names::member_parts(full@) is Some,
    {
        match names::split_member(full) {
            Some((c, f)) => {
                let ghost before = self.fields.deep_view();
                self.fields.push(FieldName { class: c.to_owned(), offset, name: f.to_owned(), source });
                assert(self.fields.deep_view() =~= before.push(
                    FieldNameV { class: c@, offset, name: f@, source },
                ));
                true
            },
            None => false,
        }
    }
}

// ---------------------------------------------------------------------------
// Signatures.

/// The name of an executable.
pub open spec fn is_exe(name: Seq<char>) -> bool {
    text::suffixed(text::lowered(name), ".exe"@)
}

/// The first executable at or after `i`.
pub open spec fn first_exe(mods: Seq<ModuleV>, i: int) -> Option<usize>
    decreases mods.len() - i,
{
    if i < 0 || i >= mods.len() {
        None
    } else if is_exe(mods[i].pe.name) {
        Some(i as usize)
    } else {
        first_exe(mods, i + 1)
    }
}

/// The executable, or the first module where there is none.
pub open spec fn exe_of(mods: Seq<ModuleV>) -> Option<usize> {
    if mods.len() == 0 {
        None
    } else {
        match first_exe(mods, 0) {
            Some(i) => Some(i),
            None => Some(0),
        }
    }
}

/// Index of the executable, or of the first module where there is none.
pub fn exe_index(mods: &Vec<Module>) -> (r: Option<usize>)
    ensures
        r == exe_of(mods.deep_view()),
        r matches Some(i) ==> i < mods@.len(),
{
    let ghost ms = mods.deep_view();
    let mut i: usize = 0;
    while i < mods.len()
        invariant
            ms == mods.deep_view(),
            i <= mods@.len(),
            first_exe(ms, 0) == first_exe(ms, i as int),
        decreases mods@.len() - i,
    {
        assert(mods@[i as int].deep_view() == ms[i as int]);
        let lower = text::to_lower(mods[i].pe.name.as_str());
        if text::ends_with(lower.as_str(), ".exe") {
            return Some(i);
        }
        i += 1;
    }
    if mods.len() == 0 {
        None
    } else {
        Some(0)
    }
}

/// Those of the first `n` signatures that are for a module.
pub open spec fn sigs_for(all: Seq<SigV>, module: Seq<char>, n: int) -> Seq<SigV>
    decreases n,
{
    if n <= 0 {
        Seq::empty()
    } else {
        let r = sigs_for(all, module, n - 1);
        if text::lowered(all[n - 1].module) == text::lowered(module) {
            r.push(all[n - 1])
        } else {
            r
        }
    }
}

/// The signatures that are for a module.
pub fn select_sigs(all: &Vec<Sig>, module: &str) -> (r: Vec<Sig>)
    ensures
        r.deep_view() == sigs_for(all.deep_view(), module@, all@.len() as int),
{
    let ghost a = all.deep_view();
    let mut out: Vec<Sig> = Vec::new();
    let mut i: usize = 0;
    assert(out.deep_view() =~= Seq::empty());
    while i < all.len()
        invariant
            a == all.deep_view(),
            i <= all@.len(),
            out.deep_view() == sigs_for(a, module@, i as int),
        decreases all@.len() - i,
    {
        assert(all@[i as int].deep_view() == a[i as int]);
        if text::same_ignoring_case(all[i].module.as_str(), module) {
            let ghost before = out.deep_view();
            out.push(all[i].clone());
            assert(out.deep_view() =~= before.push(a[i as int]));
        }
        i += 1;
    }
    out
}

/// The signatures of a module applied to it.
pub open spec fn results_for(m: ModuleV, mi: usize, all: Seq<SigV>) -> Seq<(usize, SigResultV)> {
    let mine = sigs_for(all, m.pe.name, all.len() as int);
    Seq::new(mine.len(), |i: int| (mi, sigs::applied(m.pe, mine[i])))
}

/// The signatures of the first `n` modules applied to them.
pub open spec fn results_of(mods: Seq<ModuleV>, all: Seq<SigV>, n: int) -> Seq<(usize, SigResultV)>
    decreases n,
{
    if n <= 0 {
        Seq::empty()
    } else {
        results_of(mods, all, n - 1) + results_for(mods[n - 1], (n - 1) as usize, all)
    }
}

fn apply_all(mods: &Vec<Module>, all: &Vec<Sig>) -> (r: Vec<(usize, SigResult)>)
    ensures
        r.deep_view() == results_of(mods.deep_view(), all.deep_view(), mods@.len() as int),
        forall|i: int| 0 <= i < r@.len() ==> (#[trigger] r@[i]).0 < mods@.len(),
{
    let ghost ms = mods.deep_view();
    let ghost a = all.deep_view();
    let mut out: Vec<(usize, SigResult)> = Vec::new();
    let mut i: usize = 0;
    assert(out.deep_view() =~= Seq::empty());
    while i < mods.len()
        invariant
            ms == mods.deep_view(),
            a == all.deep_view(),
            i <= mods@.len(),
            out.deep_view() == results_of(ms, a, i as int),
            forall|k: int| 0 <= k < out@.len() ==> (#[trigger] out@[k]).0 < mods@.len(),
        decreases mods@.len() - i,
    {
        assert(mods@[i as int].deep_view() == ms[i as int]);
        let mine = select_sigs(all, mods[i].pe.name.as_str());
        let mut list = sigs::apply(&mods[i], &mine);
        let ghost want = results_for(ms[i as int], i, a);
        let ghost results = list.deep_view();
        let ghost before = out.deep_view();
        let ghost mut n: int = 0;
        assert(before + want.take(0) =~= before);
        let mut queue: Vec<SigResult> = Vec::new();
        while list.len() > 0
            invariant
                list@.len() + queue@.len() == results.len(),
                forall|k: int| 0 <= k < list@.len() ==> (#[trigger] list@[k]).deep_view() == results[k],
                forall|k: int|
                    0 <= k < queue@.len() ==> (#[trigger] queue@[k]).deep_view() == results[results.len() - 1 - k],
            decreases list@.len(),
        {
            if let Some(r) = list.pop() {
                queue.push(r);
            }
        }
        while queue.len() > 0
            invariant
                i < mods@.len(),
                0 <= n,
                n + queue@.len() == results.len(),
                results.len() == want.len(),
                forall|k: int| 0 <= k < want.len() ==> #[trigger] want[k] == (i, results[k]),
                forall|k: int|
                    0 <= k < queue@.len() ==> (#[trigger] queue@[k]).deep_view() == results[results.len() - 1 - k],
                out.deep_view() == before + want.take(n),
                forall|k: int| 0 <= k < out@.len() ==> (#[trigger] out@[k]).0 < mods@.len(),
            decreases queue@.len(),
        {
            let ghost pre = out.deep_view();
            if let Some(r) = queue.pop() {
                out.push((i, r));
                assert(out.deep_view() =~= pre.push(want[n]));
                proof {
                    n = n + 1;
                }
                assert(before + want.take(n) =~= pre.push(want[n - 1]));
            }
        }
        assert(want.take(n) =~= want);
        i += 1;
    }
    out
}

impl NamingV {
    /// What a resolved signature names.
    pub open spec fn with_result(self, r: (usize, SigResultV)) -> NamingV {
        let (mi, res) = r;
        match res.value {
            None => self,
            Some(v) => match res.sig.kind {
                Kind::Func => {
                    let s = self.with_function(mi as int, v as u32);
                    if table::holds(s.mods[mi as int].code.funcs, v as u32) {
                        s.with_name(mi as int, v as u32, res.sig.name, NameSrc::Signature)
                    } else {
                        s
                    }
                },
                Kind::Global => self.with_global(mi, v as u32, res.sig.name),
                Kind::Field => self.with_member(res.sig.name, v as i32, NameSrc::Signature),
            },
        }
    }

    /// What the first `n` resolved signatures name.
    pub open spec fn with_results(self, rs: Seq<(usize, SigResultV)>, n: int) -> NamingV
        decreases n,
    {
        if n <= 0 {
            self
        } else {
            self.with_results(rs, n - 1).with_result(rs[n - 1])
        }
    }
}

impl Naming {
    fn take_result(&mut self, mi: usize, r: &SigResult)
        requires
            mi < old(self).mods@.len(),
        ensures
            final(self).deep_view() == old(self).deep_view().with_result((mi, r.deep_view())),
            final(self).mods@.len() == old(self).mods@.len(),
    {
        if let Some(v) = r.value {
            match r.sig.kind {
                Kind::Func => {
                    let rva = v as u32;
                    self.add_function(mi, rva);
                    assert(self.mods@[mi as int].deep_view() == self.deep_view().mods[mi as int]);
                    if self.mods[mi].code.funcs.contains(&rva) {
                        self.set_name(mi, rva, r.sig.name.clone(), NameSrc::Signature);
                    }
                },
                Kind::Global => {
                    self.set_global(mi, v as u32, r.sig.name.clone());
                },
                Kind::Field => {
                    self.add_member(r.sig.name.as_str(), v as i32, NameSrc::Signature);
                },
            }
        }
    }

    fn take_results(&mut self, rs: &Vec<(usize, SigResult)>)
        requires
            forall|i: int| 0 <= i < rs@.len() ==> (#[trigger] rs@[i]).0 < old(self).mods@.len(),
        ensures
            final(self).deep_view() == old(self).deep_view().with_results(rs.deep_view(), rs@.len() as int),
            final(self).mods@.len() == old(self).mods@.len(),
    {
        let ghost s = self.deep_view();
        let ghost v = rs.deep_view();
        let ghost n = self.mods@.len();
        let mut i: usize = 0;
        while i < rs.len()
            invariant
                v == rs.deep_view(),
                i <= rs@.len(),
                n == self.mods@.len(),
                forall|i: int| 0 <= i < rs@.len() ==> (#[trigger] rs@[i]).0 < n,
                self.deep_view() == s.with_results(v, i as int),
            decreases rs@.len() - i,
        {
            let row = &rs[i];
            assert(row.deep_view() == v[i as int]);
            assert(rs@[i as int].0 < n);
            self.take_result(row.0, &row.1);
            i += 1;
        }
    }
}

// ---------------------------------------------------------------------------
// Fallback records.

/// A member with its class.
pub open spec fn scoped(class: Seq<char>, name: Seq<char>) -> Seq<char> {
    class + "::"@ + name
}

pub(crate) fn scoped_name(class: &str, name: &str) -> (r: String)
    ensures
        r@ == scoped(class@, name@),
{
    let mut r = class.to_owned();
    r.append("::");
    r.append(name);
    r
}

/// Names and the state of fallback records.
pub struct Fallback {
    pub naming: Naming,
    /// Offsets of fields by their full names.
    pub resolved: Table<String, i32>,
    pub done: Vec<bool>,
    pub count: usize,
}

/// Model of names and the state of fallback records.
pub ghost struct FallbackV {
    pub naming: NamingV,
    pub resolved: Seq<(Seq<char>, i32)>,
    pub done: Seq<bool>,
    pub count: usize,
}

impl DeepView for Fallback {
    type V = FallbackV;

    open spec fn deep_view(&self) -> FallbackV {
        FallbackV {
            naming: self.naming.deep_view(),
            resolved: self.resolved.deep_view(),
            done: self.done@,
            count: self.count,
        }
    }
}

/// Offsets of the first `n` fields by their full names.
pub open spec fn resolved_fields(fs: Seq<FieldNameV>, n: int) -> Seq<(Seq<char>, i32)>
    decreases n,
{
    if n <= 0 {
        Seq::empty()
    } else {
        let f = fs[n - 1];
        table::put(resolved_fields(fs, n - 1), scoped(f.class, f.name), f.offset)
    }
}

/// What stands in a slot of a class's vtable.
pub open spec fn slot_entry(m: ModuleV, class: Seq<char>, vt_off: u32, index: usize) -> Option<u32> {
    match m.rtti.class(class) {
        Some(c) => match c.vtable_at(vt_off) {
            Some(v) => if index < v.entries.len() {
                Some(v.entries[index as int])
            } else {
                None
            },
            None => None,
        },
        None => None,
    }
}

impl FallbackV {
    pub open spec fn of(naming: NamingV, n: nat) -> FallbackV {
        FallbackV {
            naming,
            resolved: resolved_fields(naming.fields, naming.fields.len() as int),
            done: Seq::new(n, |i: int| false),
            count: 0,
        }
    }

    /// A field found at an offset under its full name by record `i`.
    pub open spec fn found(self, full: Seq<char>, offset: i32, i: int) -> FallbackV {
        FallbackV {
            naming: self.naming.with_member(full, offset, NameSrc::Signature),
            resolved: table::put(self.resolved, full, offset),
            done: self.done.update(i, true),
            count: self.count.wrapping_add(1),
        }
    }

    /// Record `i` tried.
    pub open spec fn with_extra(self, exe: int, e: ExtraV, i: int) -> FallbackV {
        if self.done[i] {
            self
        } else {
            match e {
                ExtraV::VSlot { name, class, vt_off, index } => {
                    let s = FallbackV { done: self.done.update(i, true), ..self };
                    let m = self.naming.mods[exe];
                    match slot_entry(m, class, vt_off, index) {
                        Some(e) => {
                            let t = m.resolve_entry(e).0;
                            if m.entry_import(t) is None {
                                FallbackV {
                                    naming: s.naming.with_name(exe, t, name, NameSrc::Signature),
                                    count: s.count.wrapping_add(1),
                                    ..s
                                }
                            } else {
                                s
                            }
                        },
                        None => s,
                    }
                },
                ExtraV::Rel { name, anchor, delta } => match table::get(self.resolved, anchor) {
                    Some(a) => if names::member_parts(name) is Some {
                        self.found(name, a.wrapping_add(delta as i32), i)
                    } else {
                        self
                    },
                    None => self,
                },
                ExtraV::RelSub { name, anchor, minus } => match (
                    table::get(self.resolved, anchor),
                    table::get(self.resolved, minus),
                ) {
                    (Some(a), Some(b)) => if names::member_parts(name) is Some {
                        self.found(name, a.wrapping_sub(b), i)
                    } else {
                        self
                    },
                    _ => self,
                },
            }
        }
    }

    /// The first `n` records tried once.
    pub open spec fn pass(self, exe: int, es: Seq<ExtraV>, n: int) -> FallbackV
        decreases n,
    {
        if n <= 0 {
            self
        } else {
            self.pass(exe, es, n - 1).with_extra(exe, es[n - 1], n - 1)
        }
    }

    /// The records tried until nothing more is found, `k` times at most.
    pub open spec fn passes(self, exe: int, es: Seq<ExtraV>, k: nat) -> FallbackV
        decreases k,
    {
        if k == 0 {
            self
        } else {
            let s = self.pass(exe, es, es.len() as int);
            if s.count == self.count {
                s
            } else {
                s.passes(exe, es, (k - 1) as nat)
            }
        }
    }
}

fn find_slot(m: &Module, class: &str, vt_off: u32, index: usize) -> (r: Option<u32>)
    ensures
        r == slot_entry(m.deep_view(), class@, vt_off, index),
{
    match m.rtti.class(class) {
        Some(c) => match c.vtable_at(vt_off) {
            Some(v) => if index < v.entries.len() {
                Some(v.entries[index])
            } else {
                None
            },
            None => None,
        },
        None => None,
    }
}

impl Fallback {
    fn new(naming: Naming, n: usize) -> (r: Fallback)
        ensures
            r.deep_view() == FallbackV::of(naming.deep_view(), n as nat),
            r.naming.mods@.len() == naming.mods@.len(),
    {
        let ghost fs = naming.fields.deep_view();
        let mut resolved: Table<String, i32> = Table::new();
        let mut i: usize = 0;
        while i < naming.fields.len()
            invariant
                fs == naming.fields.deep_view(),
                i <= naming.fields@.len(),
                resolved.deep_view() == resolved_fields(fs, i as int),
            decreases naming.fields@.len() - i,
        {
            let f = &naming.fields[i];
            assert(f.deep_view() == fs[i as int]);
            resolved.insert(scoped_name(f.class.as_str(), f.name.as_str()), f.offset);
            i += 1;
        }
        let mut done: Vec<bool> = Vec::new();
        while done.len() < n
            invariant
                done@.len() <= n,
                forall|k: int| 0 <= k < done@.len() ==> !(#[trigger] done@[k]),
            decreases n - done@.len(),
        {
            done.push(false);
        }
        assert(done@ =~= Seq::new(n as nat, |i: int| false));
        Fallback { naming, resolved, done, count: 0 }
    }

    fn set_done(&mut self, i: usize)
        requires
            i < old(self).done@.len(),
        ensures
            final(self).deep_view() == (FallbackV {
                done: old(self).deep_view().done.update(i as int, true),
                ..old(self).deep_view()
            }),
            final(self).naming.mods@.len() == old(self).naming.mods@.len(),
    {
        self.done.set(i, true);
    }

    fn take_field(&mut self, full: &str, offset: i32, i: usize)
        requires
            i < old(self).done@.len(),
        ensures
            final(self).deep_view() == old(self).deep_view().found(full@, offset, i as int),
            final(self).naming.mods@.len() == old(self).naming.mods@.len(),
    {
        self.naming.add_member(full, offset, NameSrc::Signature);
        self.resolved.insert(full.to_owned(), offset);
        self.done.set(i, true);
        self.count = self.count.wrapping_add(1);
    }

    fn take_extra(&mut self, exe: usize, e: &Extra, i: usize)
        requires
            exe < old(self).naming.mods@.len(),
            i < old(self).done@.len(),
        ensures
            final(self).deep_view() == old(self).deep_view().with_extra(exe as int, e.deep_view(), i as int),
            final(self).naming.mods@.len() == old(self).naming.mods@.len(),
    {
        if self.done[i] {
            return;
        }
        match e {
            Extra::VSlot { name, class, vt_off, index } => {
                let m = &self.naming.mods[exe];
                assert(m.deep_view() == self.deep_view().naming.mods[exe as int]);
                let target = match find_slot(m, class.as_str(), *vt_off, *index) {
                    Some(e) => {
                        let (t, _) = m.resolve_entry(e);
                        if m.entry_import(t).is_none() {
                            Some(t)
                        } else {
                            None
                        }
                    },
                    None => None,
                };
                self.set_done(i);
                if let Some(t) = target {
                    self.naming.set_name(exe, t, name.clone(), NameSrc::Signature);
                    self.count = self.count.wrapping_add(1);
                }
            },
            Extra::Rel { name, anchor, delta } => {
                let a = match self.resolved.get(anchor) {
                    Some(a) => *a,
                    None => {
                        return;
                    },
                };
                if names::split_member(name.as_str()).is_some() {
                    self.take_field(name.as_str(), a.wrapping_add(*delta as i32), i);
                }
            },
            Extra::RelSub { name, anchor, minus } => {
                let a = match self.resolved.get(anchor) {
                    Some(a) => *a,
                    None => {
                        return;
                    },
                };
                let b = match self.resolved.get(minus) {
                    Some(b) => *b,
                    None => {
                        return;
                    },
                };
                if names::split_member(name.as_str()).is_some() {
                    self.take_field(name.as_str(), a.wrapping_sub(b), i);
                }
            },
        }
    }

    fn try_extras(&mut self, exe: usize, es: &Vec<Extra>, times: usize)
        requires
            exe < old(self).naming.mods@.len(),
            es@.len() == old(self).done@.len(),
        ensures
            final(self).deep_view() == old(self).deep_view().passes(exe as int, es.deep_view(), times as nat),
            final(self).naming.mods@.len() == old(self).naming.mods@.len(),
    {
        let ghost s0 = self.deep_view();
        let ghost n = self.naming.mods@.len();
        let ghost v = es.deep_view();
        let ghost all = s0.passes(exe as int, v, times as nat);
        let mut left: usize = times;
        while left > 0
            invariant
                v == es.deep_view(),
                all == old(self).deep_view().passes(exe as int, v, times as nat),
                n == old(self).naming.mods@.len(),
                exe < n,
                n == self.naming.mods@.len(),
                es@.len() == self.done@.len(),
                self.deep_view().passes(exe as int, v, left as nat) == all,
            decreases left,
        {
            let ghost s = self.deep_view();
            let before = self.count;
            let mut i: usize = 0;
            while i < es.len()
                invariant
                    v == es.deep_view(),
                    exe < n,
                    n == self.naming.mods@.len(),
                    es@.len() == self.done@.len(),
                    i <= es@.len(),
                    self.deep_view() == s.pass(exe as int, v, i as int),
                decreases es@.len() - i,
            {
                assert(es@[i as int].deep_view() == v[i as int]);
                self.take_extra(exe, &es[i], i);
                assert(self.deep_view().done.len() == es@.len());
                i += 1;
            }
            left -= 1;
            if self.count == before {
                return;
            }
        }
    }
}

// ---------------------------------------------------------------------------
// Names by the user.

/// Kind, name and value of a line `func|field|global Name 0xOFFSET`.
pub open spec fn user_line(line: Seq<char>) -> Option<(Seq<char>, Seq<char>, i64)> {
    let w = text::words(text::trimmed(text::head_of(line, '#')));
    if w.len() < 3 {
        None
    } else {
        match num::number(w[2]) {
            Some(v) => Some((w[0], w[1], v as i64)),
            None => None,
        }
    }
}

pub open spec fn names_func(k: Seq<char>) -> bool {
    k == "func"@ || k == "fn"@
}

pub open spec fn names_global(k: Seq<char>) -> bool {
    k == "global"@ || k == "data"@
}

pub open spec fn names_field(k: Seq<char>) -> bool {
    k == "field"@ || k == "member"@
}

/// Names and how many of them the user gave.
pub open spec fn with_user_line(s: (NamingV, usize), exe: usize, line: Seq<char>) -> (NamingV, usize) {
    match user_line(line) {
        None => s,
        Some((kind, name, v)) => if names_func(kind) {
            (
                s.0.with_function(exe as int, v as u32).with_name(exe as int, v as u32, name, NameSrc::User),
                s.1.wrapping_add(1),
            )
        } else if names_global(kind) {
            (s.0.with_global(exe, v as u32, name), s.1.wrapping_add(1))
        } else if names_field(kind) {
            (s.0.with_member(name, v as i32, NameSrc::User), s.1.wrapping_add(1))
        } else {
            s
        },
    }
}

/// The first `n` lines of the user.
pub open spec fn with_user_lines(s: (NamingV, usize), exe: usize, lines: Seq<Seq<char>>, n: int) -> (NamingV, usize)
    decreases n,
{
    if n <= 0 {
        s
    } else {
        with_user_line(with_user_lines(s, exe, lines, n - 1), exe, lines[n - 1])
    }
}

/// The first `n` texts of the user.
pub open spec fn with_user_texts(s: (NamingV, usize), exe: usize, texts: Seq<Seq<char>>, n: int) -> (NamingV, usize)
    decreases n,
{
    if n <= 0 {
        s
    } else {
        let lines = text::lines(texts[n - 1]);
        with_user_lines(with_user_texts(s, exe, texts, n - 1), exe, lines, lines.len() as int)
    }
}

fn read_user_line(line: &str) -> (r: Option<(String, String, i64)>)
    ensures
        r.deep_view() == user_line(line@),
{
    let head = text::head(line, '#');
    let t = text::trim(head.as_str());
    let w = text::split_words(t.as_str());
    let ghost wv = w.deep_view();
    if w.len() < 3 {
        return None;
    }
    assert(w@[0]@ == wv[0] && w@[1]@ == wv[1] && w@[2]@ == wv[2]);
    match num::parse_num(w[2].as_str()) {
        Some(v) => Some((w[0].clone(), w[1].clone(), v)),
        None => None,
    }
}

impl Naming {
    fn take_user_line(&mut self, exe: usize, line: &str) -> (r: bool)
        requires
            exe < old(self).mods@.len(),
        ensures
            forall|n: usize| #[trigger]
                with_user_line((old(self).deep_view(), n), exe, line@) == (
                    final(self).deep_view(),
                    if r {
                        n.wrapping_add(1)
                    } else {
                        n
                    },
                ),
            final(self).mods@.len() == old(self).mods@.len(),
    {
        match read_user_line(line) {
            None => false,
            Some((kind, name, v)) => {
                let k = kind.as_str();
                if text::same(k, "func") || text::same(k, "fn") {
                    self.add_function(exe, v as u32);
                    self.set_name(exe, v as u32, name, NameSrc::User);
                    true
                } else if text::same(k, "global") || text::same(k, "data") {
                    self.set_global(exe, v as u32, name);
                    true
                } else if text::same(k, "field") || text::same(k, "member") {
                    self.add_member(name.as_str(), v as i32, NameSrc::User);
                    true
                } else {
                    false
                }
            },
        }
    }

    fn take_user_texts(&mut self, exe: usize, texts: &Vec<String>) -> (r: usize)
        requires
            exe < old(self).mods@.len(),
        ensures
            (final(self).deep_view(), r) == with_user_texts(
                (old(self).deep_view(), 0),
                exe,
                texts.deep_view(),
                texts@.len() as int,
            ),
            final(self).mods@.len() == old(self).mods@.len(),
    {
        let ghost s = (self.deep_view(), 0usize);
        let ghost v = texts.deep_view();
        let ghost n = self.mods@.len();
        let mut count: usize = 0;
        let mut i: usize = 0;
        while i < texts.len()
            invariant
                v == texts.deep_view(),
                exe < n,
                n == self.mods@.len(),
                i <= texts@.len(),
                (self.deep_view(), count) == with_user_texts(s, exe, v, i as int),
            decreases texts@.len() - i,
        {
            assert(texts@[i as int]@ == v[i as int]);
            let lines = text::split_lines(texts[i].as_str());
            let ghost ls = lines.deep_view();
            let ghost s1 = (self.deep_view(), count);
            let mut k: usize = 0;
            while k < lines.len()
                invariant
                    ls == lines.deep_view(),
                    exe < n,
                    n == self.mods@.len(),
                    k <= lines@.len(),
                    (self.deep_view(), count) == with_user_lines(s1, exe, ls, k as int),
                decreases lines@.len() - k,
            {
                assert(lines@[k as int]@ == ls[k as int]);
                let ghost before = (self.deep_view(), count);
                if self.take_user_line(exe, lines[k].as_str()) {
                    count = count.wrapping_add(1);
                }
                assert(with_user_line(before, exe, ls[k as int]) == (self.deep_view(), count));
                k += 1;
            }
            i += 1;
        }
        count
    }
}

// ---------------------------------------------------------------------------
// The report.

/// The modules with the owners of their functions.
pub open spec fn owned(mods: Seq<ModuleV>) -> Seq<ModuleV> {
    Seq::new(mods.len(), |i: int| mods[i].ownership_computed())
}

fn compute_owners(mods: &mut Vec<Module>)
    ensures
        final(mods).deep_view() == owned(old(mods).deep_view()),
        final(mods)@.len() == old(mods)@.len(),
{
    let ghost ms = mods.deep_view();
    let mut i: usize = 0;
    while i < mods.len()
        invariant
            ms == old(mods).deep_view(),
            i <= mods@.len(),
            mods@.len() == ms.len(),
            forall|k: int| 0 <= k < i ==> (#[trigger] mods@[k]).deep_view() == ms[k].ownership_computed(),
            forall|k: int| i <= k < mods@.len() ==> (#[trigger] mods@[k]).deep_view() == ms[k],
        decreases mods@.len() - i,
    {
        mods[i].compute_ownership();
        i += 1;
    }
    assert(mods.deep_view() =~= owned(ms));
}

/// The globals with those that hold the first `n` singletons of a module.
pub open spec fn with_singletons(
    gs: GlobalNames,
    mi: usize,
    ss: Seq<crate::model::SingletonV>,
    n: int,
) -> GlobalNames
    decreases n,
{
    if n <= 0 {
        gs
    } else {
        let s = with_singletons(gs, mi, ss, n - 1);
        match ss[n - 1].class {
            Some(c) => table::put_new(s, (mi, ss[n - 1].global), c + "::s_instance"@),
            None => s,
        }
    }
}

/// The globals with those that hold the first `n` instances of a module.
pub open spec fn with_instances(
    gs: GlobalNames,
    mi: usize,
    is: Seq<crate::model::InstanceGlobalV>,
    n: int,
) -> GlobalNames
    decreases n,
{
    if n <= 0 {
        gs
    } else {
        table::put_new(
            with_instances(gs, mi, is, n - 1),
            (mi, is[n - 1].global),
            is[n - 1].class + "::s_instance?"@,
        )
    }
}

/// The globals with those of the first `n` modules; a global that has a name
/// keeps it.
pub open spec fn globals_named(gs: GlobalNames, mods: Seq<ModuleV>, n: int) -> GlobalNames
    decreases n,
{
    if n <= 0 {
        gs
    } else {
        let m = mods[n - 1];
        let mi = (n - 1) as usize;
        let ss = m.best_singletons();
        let s = with_singletons(globals_named(gs, mods, n - 1), mi, ss, ss.len() as int);
        with_instances(s, mi, m.instance_globals, m.instance_globals.len() as int)
    }
}

fn offer_global(gs: &mut Table<(usize, u32), String>, mi: usize, rva: u32, name: String)
    ensures
        final(gs).deep_view() == table::put_new(old(gs).deep_view(), (mi, rva), name@),
{
    let key = (mi, rva);
    assert(crate::table::Key::key(&key) == (mi, rva));
    if !gs.contains(&key) {
        gs.insert(key, name);
    }
}

fn name_globals(gs: &mut Table<(usize, u32), String>, mods: &Vec<Module>)
    ensures
        final(gs).deep_view() == globals_named(old(gs).deep_view(), mods.deep_view(), mods@.len() as int),
{
    let ghost g0 = gs.deep_view();
    let ghost ms = mods.deep_view();
    let mut i: usize = 0;
    while i < mods.len()
        invariant
            ms == mods.deep_view(),
            i <= mods@.len(),
            gs.deep_view() == globals_named(g0, ms, i as int),
        decreases mods@.len() - i,
    {
        let m = &mods[i];
        assert(m.deep_view() == ms[i as int]);
        let list = m.best_singletons();
        let ghost ss = list.deep_view();
        let ghost g1 = gs.deep_view();
        let mut k: usize = 0;
        while k < list.len()
            invariant
                ss == list.deep_view(),
                k <= list@.len(),
                gs.deep_view() == with_singletons(g1, i, ss, k as int),
            decreases list@.len() - k,
        {
            let s = &list[k];
            assert(s.deep_view() == ss[k as int]);
            if let Some(c) = &s.class {
                offer_global(gs, i, s.global, text::concat(c.as_str(), "::s_instance"));
            }
            k += 1;
        }
        let ghost is = m.instance_globals.deep_view();
        let ghost g2 = gs.deep_view();
        k = 0;
        while k < m.instance_globals.len()
            invariant
                is == m.instance_globals.deep_view(),
                k <= m.instance_globals@.len(),
                gs.deep_view() == with_instances(g2, i, is, k as int),
            decreases m.instance_globals@.len() - k,
        {
            let g = &m.instance_globals[k];
            assert(g.deep_view() == is[k as int]);
            offer_global(gs, i, g.global, text::concat(g.class.as_str(), "::s_instance?"));
            k += 1;
        }
        i += 1;
    }
}

/// A name is on a list.
pub open spec fn is_named(list: Seq<NamedFieldV>, name: Seq<char>) -> bool {
    exists|i: int| 0 <= i < list.len() && (#[trigger] list[i]).name == name
}

/// A list of names with one more, unless it is there.
pub open spec fn with_field_name(list: Seq<NamedFieldV>, f: FieldNameV) -> Seq<NamedFieldV> {
    if is_named(list, f.name) {
        list
    } else {
        list.push(NamedFieldV { name: f.name, ty: Seq::empty(), size: 0, source: f.source })
    }
}

/// The names of the first `n` fields by class and offset.
pub open spec fn fields_named(fs: Seq<FieldNameV>, n: int) -> FieldNames
    decreases n,
{
    if n <= 0 {
        Seq::empty()
    } else {
        let s = fields_named(fs, n - 1);
        let f = fs[n - 1];
        let of_class = table::list_at(s, f.class);
        table::put(s, f.class, table::put(of_class, f.offset, with_field_name(table::list_at(of_class, f.offset), f)))
    }
}

pub(crate) fn lists_name(list: &Vec<NamedField>, name: &str) -> (r: bool)
    ensures
        r == is_named(list.deep_view(), name@),
{
    let ghost l = list.deep_view();
    let mut i: usize = 0;
    while i < list.len()
        invariant
            l == list.deep_view(),
            i <= list@.len(),
            forall|k: int| 0 <= k < i ==> (#[trigger] l[k]).name != name@,
        decreases list@.len() - i,
    {
        assert(list@[i as int].deep_view() == l[i as int]);
        if text::same(list[i].name.as_str(), name) {
            assert(l[i as int].name == name@);
            return true;
        }
        i += 1;
    }
    false
}

fn name_fields(fs: &Vec<FieldName>) -> (r: Table<String, Table<i32, Vec<NamedField>>>)
    ensures
        r.deep_view() == fields_named(fs.deep_view(), fs@.len() as int),
{
    let ghost v = fs.deep_view();
    let mut out: Table<String, Table<i32, Vec<NamedField>>> = Table::new();
    let mut i: usize = 0;
    while i < fs.len()
        invariant
            v == fs.deep_view(),
            i <= fs@.len(),
            out.deep_view() == fields_named(v, i as int),
        decreases fs@.len() - i,
    {
        let f = &fs[i];
        assert(f.deep_view() == v[i as int]);
        let mut of_class = match out.take(&f.class) {
            Some(t) => t,
            None => Table::new(),
        };
        let mut list = match of_class.take(&f.offset) {
            Some(l) => l,
            None => {
                let l: Vec<NamedField> = Vec::new();
                assert(l.deep_view() =~= Seq::empty());
                l
            },
        };
        if !lists_name(&list, f.name.as_str()) {
            let ghost before = list.deep_view();
            let ty = text::empty_text();
            let n = NamedField { name: f.name.clone(), ty, size: 0, source: f.source };
            let ghost x = n.deep_view();
            list.push(n);
            assert(list.deep_view() =~= before.push(x));
        }
        of_class.insert(f.offset, list);
        out.insert(f.class.clone(), of_class);
        i += 1;
    }
    out
}

// ---------------------------------------------------------------------------
// Vtable slots.

/// What a slot holds has no name from a vtable or better, and is not imported.
pub open spec fn is_anonymous(m: ModuleV, t: u32) -> bool {
    !(table::get(m.names, t) matches Some(n) && n.source.at_least(NameSrc::Vtable)) && m.entry_import(t) is None
}

/// Names for the first `n` slots of a vtable.
pub open spec fn vtable_slots(
    w: WorldV,
    mi: int,
    class: Seq<char>,
    v: crate::rtti::VtableV,
    n: int,
) -> Seq<(u32, Seq<char>)>
    decreases n,
{
    if n <= 0 {
        Seq::empty()
    } else {
        let s = vtable_slots(w, mi, class, v, n - 1);
        let e = v.entries[n - 1];
        let t = w.modules[mi].resolve_entry(e).0;
        if is_anonymous(w.modules[mi], t) {
            s.push((t, w.slot_name(mi, class, v.offset, (n - 1) as usize, e).0))
        } else {
            s
        }
    }
}

/// Names for the slots of the first `n` vtables of a class.
pub open spec fn class_slots(w: WorldV, mi: int, c: crate::rtti::ClassV, n: int) -> Seq<(u32, Seq<char>)>
    decreases n,
{
    if n <= 0 {
        Seq::empty()
    } else {
        class_slots(w, mi, c, n - 1) + vtable_slots(w, mi, c.name, c.vtables[n - 1], c.vtables[n - 1].entries.len() as int)
    }
}

/// Names for the slots of the first `n` classes of a module.
pub open spec fn module_slots(w: WorldV, mi: int, n: int) -> Seq<(u32, Seq<char>)>
    decreases n,
{
    if n <= 0 {
        Seq::empty()
    } else {
        let c = w.modules[mi].rtti.classes[n - 1].1;
        module_slots(w, mi, n - 1) + class_slots(w, mi, c, c.vtables.len() as int)
    }
}

/// A module with the first `n` names.
pub open spec fn with_slot_names(m: ModuleV, list: Seq<(u32, Seq<char>)>, n: int) -> ModuleV
    decreases n,
{
    if n <= 0 {
        m
    } else {
        with_slot_names(m, list, n - 1).with_name(list[n - 1].0, list[n - 1].1, NameSrc::Vtable, false)
    }
}

/// The program with names for what stands in the vtables of the first `n`
/// modules.
pub open spec fn slots_named(w: WorldV, n: int) -> WorldV
    decreases n,
{
    if n <= 0 {
        w
    } else {
        let s = slots_named(w, n - 1);
        let mi = n - 1;
        let list = module_slots(s, mi, s.modules[mi].rtti.classes.len() as int);
        WorldV {
            modules: s.modules.update(mi, with_slot_names(s.modules[mi], list, list.len() as int)),
            ..s
        }
    }
}

fn anonymous(m: &Module, t: u32) -> (r: bool)
    ensures
        r == is_anonymous(m.deep_view(), t),
{
    if let Some(n) = m.names.get(&t) {
        if n.source.reaches(NameSrc::Vtable) {
            return false;
        }
    }
    m.entry_import(t).is_none()
}

fn collect_slots(w: &World, mi: usize) -> (r: Vec<(u32, String)>)
    requires
        mi < w.modules@.len(),
    ensures
        r.deep_view() == module_slots(
            w.deep_view(),
            mi as int,
            w.deep_view().modules[mi as int].rtti.classes.len() as int,
        ),
{
    let ghost wv = w.deep_view();
    let m = &w.modules[mi];
    let ghost mv = m.deep_view();
    assert(mv == wv.modules[mi as int]);
    let mut out: Vec<(u32, String)> = Vec::new();
    assert(out.deep_view() =~= Seq::empty());
    let mut i: usize = 0;
    while i < m.rtti.classes.len()
        invariant
            mi < w.modules@.len(),
            wv == w.deep_view(),
            mv == m.deep_view(),
            mv == wv.modules[mi as int],
            i <= mv.rtti.classes.len(),
            out.deep_view() == module_slots(wv, mi as int, i as int),
        decreases mv.rtti.classes.len() - i,
    {
        let c = m.rtti.classes.value_at(i);
        let ghost cv = c.deep_view();
        assert(cv == mv.rtti.classes[i as int].1);
        let ghost before = out.deep_view();
        assert(before + Seq::<(u32, Seq<char>)>::empty() =~= before);
        let mut j: usize = 0;
        while j < c.vtables.len()
            invariant
                mi < w.modules@.len(),
                wv == w.deep_view(),
                mv == m.deep_view(),
                mv == wv.modules[mi as int],
                cv == c.deep_view(),
                j <= c.vtables@.len(),
                out.deep_view() == before + class_slots(wv, mi as int, cv, j as int),
            decreases c.vtables@.len() - j,
        {
            let v = &c.vtables[j];
            let ghost vv = v.deep_view();
            assert(vv == cv.vtables[j as int]);
            let ghost mid = out.deep_view();
            assert(mid + Seq::<(u32, Seq<char>)>::empty() =~= mid);
            let mut k: usize = 0;
            while k < v.entries.len()
                invariant
                    mi < w.modules@.len(),
                    wv == w.deep_view(),
                    mv == m.deep_view(),
                    mv == wv.modules[mi as int],
                    cv == c.deep_view(),
                    vv == v.deep_view(),
                    k <= v.entries@.len(),
                    out.deep_view() == mid + vtable_slots(wv, mi as int, cv.name, vv, k as int),
                decreases v.entries@.len() - k,
            {
                let e = v.entries[k];
                assert(e == vv.entries[k as int]);
                let (t, _) = m.resolve_entry(e);
                if anonymous(m, t) {
                    let ghost pre = out.deep_view();
                    let ghost part = vtable_slots(wv, mi as int, cv.name, vv, k as int);
                    let (n, _) = w.slot_name(mi, c.name.as_str(), v.offset, k, e);
                    let ghost x = (t, n@);
                    out.push((t, n));
                    assert(out.deep_view() =~= pre.push(x));
                    assert(mid + part.push(x) =~= pre.push(x));
                }
                k += 1;
            }
            proof {
                let a = class_slots(wv, mi as int, cv, j as int);
                let b = vtable_slots(wv, mi as int, cv.name, vv, k as int);
                assert(before + (a + b) =~= (before + a) + b);
            }
            j += 1;
        }
        i += 1;
    }
    out
}

fn name_slots(w: &mut World)
    ensures
        final(w).deep_view() == slots_named(old(w).deep_view(), old(w).modules@.len() as int),
        final(w).modules@.len() == old(w).modules@.len(),
{
    let ghost w0 = w.deep_view();
    let count = w.modules.len();
    let mut mi: usize = 0;
    while mi < count
        invariant
            count == w.modules@.len(),
            mi <= count,
            w.deep_view() == slots_named(w0, mi as int),
        decreases count - mi,
    {
        let ghost s = w.deep_view();
        let list = collect_slots(w, mi);
        let ghost l = list.deep_view();
        let ghost m = s.modules[mi as int];
        let mut i: usize = 0;
        assert(s.modules.update(mi as int, m) =~= s.modules);
        while i < list.len()
            invariant
                count == w.modules@.len(),
                mi < count,
                count == s.modules.len(),
                l == list.deep_view(),
                i <= list@.len(),
                w.deep_view() == (WorldV {
                    modules: s.modules.update(mi as int, with_slot_names(m, l, i as int)),
                    ..s
                }),
            decreases list@.len() - i,
        {
            let ghost before = w.modules.deep_view();
            assert(list@[i as int].deep_view() == l[i as int]);
            let ghost was = with_slot_names(m, l, i as int);
            assert(before[mi as int] == was);
            w.modules[mi].set_name(list[i].0, list[i].1.clone(), NameSrc::Vtable, false);
            let ghost now = was.with_name(l[i as int].0, l[i as int].1, NameSrc::Vtable, false);
            assert(w.modules.deep_view() =~= before.update(mi as int, now));
            i += 1;
            assert(with_slot_names(m, l, i as int) == now);
            assert(w.modules.deep_view() =~= s.modules.update(mi as int, now));
        }
        mi += 1;
    }
}

// ---------------------------------------------------------------------------
// Everything together.

#[derive(Debug)]
pub enum DumpError {
    NoModules,
}

impl DumpError {
    /// The message, for the folder that the modules come from.
    pub fn message(&self, folder: &str) -> (r: String)
        ensures
            r@ == "no modules loaded from "@ + folder@,
    {
        text::concat("no modules loaded from ", folder)
    }
}

/// How often fallback records are tried.
pub const PASSES: usize = 6;

/// The results without the modules they are for.
pub open spec fn plain_results(rs: Seq<(usize, SigResultV)>) -> Seq<SigResultV> {
    Seq::new(rs.len(), |i: int| rs[i].1)
}

/// The names that signatures, fallback records and the user give.
pub open spec fn names_given(
    mods: Seq<ModuleV>,
    exe: usize,
    all: Seq<SigV>,
    extras: Seq<ExtraV>,
    texts: Seq<Seq<char>>,
) -> (FallbackV, (NamingV, usize)) {
    let results = results_of(mods, all, mods.len() as int);
    let named = NamingV::of(mods).with_results(results, results.len() as int);
    let back = FallbackV::of(named, extras.len()).passes(exe as int, extras, PASSES as nat);
    (back, with_user_texts((back.naming, 0), exe, texts, texts.len() as int))
}

/// What modules, signatures, fallback records and names of the user amount to.
pub open spec fn report_of(
    mods: Seq<ModuleV>,
    exe: usize,
    all: Seq<SigV>,
    extras: Seq<ExtraV>,
    texts: Seq<Seq<char>>,
) -> ReportV {
    let (back, (naming, user_names)) = names_given(mods, exe, all, extras, texts);
    let w = WorldV::of(owned(naming.mods)).fields_built();
    ReportV {
        world: slots_named(w, w.modules.len() as int),
        exe,
        named_fields: fields_named(naming.fields, naming.fields.len() as int),
        named_globals: globals_named(naming.globals, w.modules, w.modules.len() as int),
        sig_results: plain_results(results_of(mods, all, mods.len() as int)),
        fallback_names: back.count,
        user_names,
    }
}

proof fn global_put_in(gs: GlobalNames, k: (usize, u32), name: Seq<char>, n: int)
    requires
        globals_in(gs, n),
        k.0 < n,
    ensures
        globals_in(table::put(gs, k, name), n),
        globals_in(table::put_new(gs, k, name), n),
{
    let t = table::put(gs, k, name);
    table::rows_after_put(gs, k, name);
    assert forall|i: int| 0 <= i < t.len() implies (#[trigger] t[i]).0.0 < n by {
        if gs.contains(t[i]) {
            let j = choose|j: int| 0 <= j < gs.len() && gs[j] == t[i];
            assert(gs[j].0.0 < n);
        }
    }
}

impl NamingV {
    /// The names are about the modules there are.
    pub open spec fn fits(self, n: int) -> bool {
        self.mods.len() == n && globals_in(self.globals, n)
    }

    proof fn results_fit(self, rs: Seq<(usize, SigResultV)>, k: int, n: int)
        requires
            self.fits(n),
            0 <= k <= rs.len(),
            forall|i: int| 0 <= i < rs.len() ==> (#[trigger] rs[i]).0 < n,
        ensures
            self.with_results(rs, k).fits(n),
        decreases k,
    {
        if k > 0 {
            self.results_fit(rs, k - 1, n);
            let s = self.with_results(rs, k - 1);
            let (mi, r) = rs[k - 1];
            if let Some(v) = r.value {
                global_put_in(s.globals, (mi, v as u32), r.sig.name, n);
            }
        }
    }
}

proof fn results_in(mods: Seq<ModuleV>, all: Seq<SigV>, k: int, n: int)
    requires
        0 <= k <= n <= usize::MAX,
    ensures
        forall|i: int| 0 <= i < results_of(mods, all, k).len() ==> (#[trigger] results_of(mods, all, k)[i]).0 < n,
    decreases k,
{
    if k > 0 {
        results_in(mods, all, k - 1, n);
        let a = results_of(mods, all, k - 1);
        let b = results_for(mods[k - 1], (k - 1) as usize, all);
        assert forall|i: int| 0 <= i < (a + b).len() implies (#[trigger] (a + b)[i]).0 < n by {
            if i < a.len() {
                assert((a + b)[i] == a[i]);
            } else {
                assert((a + b)[i] == b[i - a.len()]);
            }
        }
    }
}

impl FallbackV {
    proof fn pass_fits(self, exe: int, es: Seq<ExtraV>, k: int, n: int)
        requires
            self.naming.fits(n),
            0 <= exe < n,
        ensures
            self.pass(exe, es, k).naming.fits(n),
        decreases k,
    {
        if k > 0 {
            self.pass_fits(exe, es, k - 1, n);
        }
    }

    proof fn passes_fit(self, exe: int, es: Seq<ExtraV>, k: nat, n: int)
        requires
            self.naming.fits(n),
            0 <= exe < n,
        ensures
            self.passes(exe, es, k).naming.fits(n),
        decreases k,
    {
        if k > 0 {
            self.pass_fits(exe, es, es.len() as int, n);
            let s = self.pass(exe, es, es.len() as int);
            if s.count != self.count {
                s.passes_fit(exe, es, (k - 1) as nat, n);
            }
        }
    }
}

proof fn user_lines_fit(s: (NamingV, usize), exe: usize, lines: Seq<Seq<char>>, k: int, n: int)
    requires
        s.0.fits(n),
        exe < n,
    ensures
        with_user_lines(s, exe, lines, k).0.fits(n),
    decreases k,
{
    if k > 0 {
        user_lines_fit(s, exe, lines, k - 1, n);
        let t = with_user_lines(s, exe, lines, k - 1);
        if let Some((kind, name, v)) = user_line(lines[k - 1]) {
            global_put_in(t.0.globals, (exe, v as u32), name, n);
        }
    }
}

proof fn user_texts_fit(s: (NamingV, usize), exe: usize, texts: Seq<Seq<char>>, k: int, n: int)
    requires
        s.0.fits(n),
        exe < n,
    ensures
        with_user_texts(s, exe, texts, k).0.fits(n),
    decreases k,
{
    if k > 0 {
        user_texts_fit(s, exe, texts, k - 1, n);
        let lines = text::lines(texts[k - 1]);
        user_lines_fit(with_user_texts(s, exe, texts, k - 1), exe, lines, lines.len() as int, n);
    }
}

proof fn singletons_in(gs: GlobalNames, mi: usize, ss: Seq<crate::model::SingletonV>, k: int, n: int)
    requires
        globals_in(gs, n),
        mi < n,
    ensures
        globals_in(with_singletons(gs, mi, ss, k), n),
    decreases k,
{
    if k > 0 {
        singletons_in(gs, mi, ss, k - 1, n);
        if let Some(c) = ss[k - 1].class {
            global_put_in(with_singletons(gs, mi, ss, k - 1), (mi, ss[k - 1].global), c + "::s_instance"@, n);
        }
    }
}

proof fn instances_in(gs: GlobalNames, mi: usize, is: Seq<crate::model::InstanceGlobalV>, k: int, n: int)
    requires
        globals_in(gs, n),
        mi < n,
    ensures
        globals_in(with_instances(gs, mi, is, k), n),
    decreases k,
{
    if k > 0 {
        instances_in(gs, mi, is, k - 1, n);
        global_put_in(
            with_instances(gs, mi, is, k - 1),
            (mi, is[k - 1].global),
            is[k - 1].class + "::s_instance?"@,
            n,
        );
    }
}

proof fn named_globals_in(gs: GlobalNames, mods: Seq<ModuleV>, k: int, n: int)
    requires
        globals_in(gs, n),
        0 <= k <= n <= usize::MAX,
    ensures
        globals_in(globals_named(gs, mods, k), n),
    decreases k,
{
    if k > 0 {
        named_globals_in(gs, mods, k - 1, n);
        let m = mods[k - 1];
        let mi = (k - 1) as usize;
        let ss = m.best_singletons();
        let s = globals_named(gs, mods, k - 1);
        singletons_in(s, mi, ss, ss.len() as int, n);
        instances_in(
            with_singletons(s, mi, ss, ss.len() as int),
            mi,
            m.instance_globals,
            m.instance_globals.len() as int,
            n,
        );
    }
}

proof fn slots_keep_classes(w: WorldV, k: int)
    requires
        k <= w.modules.len(),
    ensures
        slots_named(w, k).classes == w.classes,
        slots_named(w, k).modules.len() == w.modules.len(),
    decreases k,
{
    if k > 0 {
        slots_keep_classes(w, k - 1);
    }
}

/// What a report says of modules is about modules that it has.
pub proof fn report_is_sound(
    mods: Seq<ModuleV>,
    exe: usize,
    all: Seq<SigV>,
    extras: Seq<ExtraV>,
    texts: Seq<Seq<char>>,
)
    requires
        exe < mods.len() <= usize::MAX,
    ensures
        report_of(mods, exe, all, extras, texts).wf(),
        report_of(mods, exe, all, extras, texts).world.modules.len() == mods.len(),
{
    let n = mods.len() as int;
    let results = results_of(mods, all, n);
    results_in(mods, all, n, n);
    NamingV::of(mods).results_fit(results, results.len() as int, n);
    let named = NamingV::of(mods).with_results(results, results.len() as int);
    FallbackV::of(named, extras.len()).passes_fit(exe as int, extras, PASSES as nat, n);
    let back = FallbackV::of(named, extras.len()).passes(exe as int, extras, PASSES as nat);
    user_texts_fit((back.naming, 0), exe, texts, texts.len() as int, n);
    let naming = with_user_texts((back.naming, 0), exe, texts, texts.len() as int).0;
    let ms = owned(naming.mods);
    let w = WorldV::of(ms).fields_built();
    world::classes_sit(ms);
    named_globals_in(naming.globals, ms, n, n);
    slots_keep_classes(w, n);
}

proof fn offered_global_kept(gs: GlobalNames, k: (usize, u32), name: Seq<char>, other: (usize, u32))
    requires
        table::ordered(gs),
        table::holds(gs, other),
    ensures
        table::ordered(table::put_new(gs, k, name)),
        table::get(table::put_new(gs, k, name), other) == table::get(gs, other),
        table::holds(table::put_new(gs, k, name), other),
{
    table::get_after_put(gs, k, name, other);
    if other == k {
        assert(table::holds(gs, k));
    }
}

proof fn singletons_keep(gs: GlobalNames, mi: usize, ss: Seq<crate::model::SingletonV>, n: int, k: (usize, u32))
    requires
        table::ordered(gs),
        table::holds(gs, k),
    ensures
        table::ordered(with_singletons(gs, mi, ss, n)),
        table::holds(with_singletons(gs, mi, ss, n), k),
        table::get(with_singletons(gs, mi, ss, n), k) == table::get(gs, k),
    decreases n,
{
    if n > 0 {
        singletons_keep(gs, mi, ss, n - 1, k);
        if let Some(c) = ss[n - 1].class {
            offered_global_kept(with_singletons(gs, mi, ss, n - 1), (mi, ss[n - 1].global), c + "::s_instance"@, k);
        }
    }
}

proof fn instances_keep(gs: GlobalNames, mi: usize, is: Seq<crate::model::InstanceGlobalV>, n: int, k: (usize, u32))
    requires
        table::ordered(gs),
        table::holds(gs, k),
    ensures
        table::ordered(with_instances(gs, mi, is, n)),
        table::holds(with_instances(gs, mi, is, n), k),
        table::get(with_instances(gs, mi, is, n), k) == table::get(gs, k),
    decreases n,
{
    if n > 0 {
        instances_keep(gs, mi, is, n - 1, k);
        offered_global_kept(
            with_instances(gs, mi, is, n - 1),
            (mi, is[n - 1].global),
            is[n - 1].class + "::s_instance?"@,
            k,
        );
    }
}

/// A global that a signature or the user named keeps that name, whatever
/// singletons and instances are found.
pub proof fn globals_keep_names(gs: GlobalNames, mods: Seq<ModuleV>, n: int, k: (usize, u32))
    requires
        table::ordered(gs),
        table::holds(gs, k),
    ensures
        table::ordered(globals_named(gs, mods, n)),
        table::holds(globals_named(gs, mods, n), k),
        table::get(globals_named(gs, mods, n), k) == table::get(gs, k),
    decreases n,
{
    if n > 0 {
        globals_keep_names(gs, mods, n - 1, k);
        let m = mods[n - 1];
        let mi = (n - 1) as usize;
        let ss = m.best_singletons();
        let s = globals_named(gs, mods, n - 1);
        singletons_keep(s, mi, ss, ss.len() as int, k);
        instances_keep(
            with_singletons(s, mi, ss, ss.len() as int),
            mi,
            m.instance_globals,
            m.instance_globals.len() as int,
            k,
        );
    }
}

/// An address of a module has a name by the user: this one, or one that comes
/// before it.
pub open spec fn user_named(m: ModuleV, rva: u32, name: Seq<char>) -> bool {
    table::get(m.names, rva) matches Some(n) && n.source == NameSrc::User && (n.name == name || table::Ordered::before(
        n.name,
        name,
    ))
}

/// The names of modules stay in order, and those by the user stay in place.
#[verifier::opaque]
pub open spec fn user_names_stay(a: Seq<ModuleV>, b: Seq<ModuleV>) -> bool {
    &&& a.len() == b.len()
    &&& forall|i: int| 0 <= i < a.len() && table::ordered((#[trigger] a[i]).names) ==> table::ordered(b[i].names)
    &&& forall|i: int, rva: u32, name: Seq<char>|
        0 <= i < a.len() && table::ordered(a[i].names) && #[trigger] user_named(a[i], rva, name) ==> user_named(
            b[i],
            rva,
            name,
        )
}

proof fn offer_keeps_user_name(m: ModuleV, rva: u32, name: Seq<char>, source: NameSrc, at: u32, given: Seq<char>)
    requires
        table::ordered(m.names),
    ensures
        table::ordered(m.with_name(rva, name, source, false).names),
        user_named(m, at, given) ==> user_named(m.with_name(rva, name, source, false), at, given),
        source == NameSrc::User ==> user_named(m.with_name(rva, name, source, false), rva, name),
{
    let n = NameV { name, source, is_static: false };
    table::get_after_put(m.names, rva, n, at);
    if let Some(k) = table::get(m.names, rva) {
        <Seq<char> as table::Ordered>::total(name, k.name);
        if table::Ordered::before(name, k.name) && table::Ordered::before(k.name, given) {
            <Seq<char> as table::Ordered>::transitive(name, k.name, given);
        }
    }
}

proof fn same_names_stay(a: Seq<ModuleV>, b: Seq<ModuleV>)
    requires
        a.len() == b.len(),
        forall|i: int| 0 <= i < a.len() ==> (#[trigger] a[i]).names == b[i].names,
    ensures
        user_names_stay(a, b),
{
    reveal(user_names_stay);
}

proof fn stays_through(a: Seq<ModuleV>, b: Seq<ModuleV>, c: Seq<ModuleV>)
    requires
        user_names_stay(a, b),
        user_names_stay(b, c),
    ensures
        user_names_stay(a, c),
{
    reveal(user_names_stay);
    assert forall|i: int, rva: u32, name: Seq<char>|
        0 <= i < a.len() && table::ordered(a[i].names) && #[trigger] user_named(a[i], rva, name) implies user_named(
        c[i],
        rva,
        name,
    ) by {
        assert(user_named(b[i], rva, name));
    }
}

proof fn stays_at(a: Seq<ModuleV>, b: Seq<ModuleV>, i: int, rva: u32, name: Seq<char>)
    requires
        user_names_stay(a, b),
        0 <= i < a.len(),
        table::ordered(a[i].names),
    ensures
        a.len() == b.len(),
        table::ordered(b[i].names),
        user_named(a[i], rva, name) ==> user_named(b[i], rva, name),
{
    reveal(user_names_stay);
}

proof fn stays_long(a: Seq<ModuleV>, b: Seq<ModuleV>)
    requires
        user_names_stay(a, b),
    ensures
        a.len() == b.len(),
{
    reveal(user_names_stay);
}

proof fn offer_stays(ms: Seq<ModuleV>, mi: int, rva: u32, name: Seq<char>, source: NameSrc)
    requires
        0 <= mi < ms.len(),
    ensures
        user_names_stay(ms, ms.update(mi, ms[mi].with_name(rva, name, source, false))),
{
    reveal(user_names_stay);
    let t = ms.update(mi, ms[mi].with_name(rva, name, source, false));
    assert forall|i: int| 0 <= i < ms.len() && table::ordered((#[trigger] ms[i]).names) implies table::ordered(
        t[i].names,
    ) by {
        offer_keeps_user_name(ms[i], rva, name, source, rva, name);
    }
    assert forall|i: int, at: u32, given: Seq<char>|
        0 <= i < ms.len() && table::ordered(ms[i].names) && #[trigger] user_named(ms[i], at, given) implies user_named(
        t[i],
        at,
        given,
    ) by {
        offer_keeps_user_name(ms[i], rva, name, source, at, given);
    }
}

impl NamingV {
    /// Naming a function keeps the names by the user.
    proof fn function_stays(self, mi: int, rva: u32, name: Seq<char>, source: NameSrc)
        requires
            0 <= mi < self.mods.len(),
        ensures
            user_names_stay(self.mods, self.with_function(mi, rva).mods),
            user_names_stay(self.mods, self.with_function(mi, rva).with_name(mi, rva, name, source).mods),
    {
        let t = self.with_function(mi, rva);
        same_names_stay(self.mods, t.mods);
        offer_stays(t.mods, mi, rva, name, source);
        stays_through(self.mods, t.mods, t.with_name(mi, rva, name, source).mods);
    }

    proof fn results_stay(self, rs: Seq<(usize, SigResultV)>, k: int)
        requires
            0 <= k <= rs.len(),
            forall|i: int| 0 <= i < rs.len() ==> (#[trigger] rs[i]).0 < self.mods.len(),
        ensures
            user_names_stay(self.mods, self.with_results(rs, k).mods),
        decreases k,
    {
        if k > 0 {
            self.results_stay(rs, k - 1);
            let s = self.with_results(rs, k - 1);
            let (mi, r) = rs[k - 1];
            stays_long(self.mods, s.mods);
            same_names_stay(s.mods, s.mods);
            if let Some(v) = r.value {
                assert(rs[k - 1].0 < self.mods.len());
                s.function_stays(mi as int, v as u32, r.sig.name, NameSrc::Signature);
            }
            stays_through(self.mods, s.mods, s.with_result(rs[k - 1]).mods);
        } else {
            same_names_stay(self.mods, self.mods);
        }
    }
}

impl FallbackV {
    proof fn pass_stays(self, exe: int, es: Seq<ExtraV>, k: int)
        requires
            0 <= exe < self.naming.mods.len(),
        ensures
            user_names_stay(self.naming.mods, self.pass(exe, es, k).naming.mods),
        decreases k,
    {
        if k > 0 {
            self.pass_stays(exe, es, k - 1);
            let s = self.pass(exe, es, k - 1);
            let ms = s.naming.mods;
            stays_long(self.naming.mods, ms);
            same_names_stay(ms, ms);
            if let ExtraV::VSlot { name, class, vt_off, index } = es[k - 1] {
                if let Some(e) = slot_entry(ms[exe], class, vt_off, index) {
                    offer_stays(ms, exe, ms[exe].resolve_entry(e).0, name, NameSrc::Signature);
                }
            }
            stays_through(self.naming.mods, ms, s.with_extra(exe, es[k - 1], k - 1).naming.mods);
        } else {
            same_names_stay(self.naming.mods, self.naming.mods);
        }
    }

    proof fn passes_stay(self, exe: int, es: Seq<ExtraV>, k: nat)
        requires
            0 <= exe < self.naming.mods.len(),
        ensures
            user_names_stay(self.naming.mods, self.passes(exe, es, k).naming.mods),
        decreases k,
    {
        if k > 0 {
            self.pass_stays(exe, es, es.len() as int);
            let s = self.pass(exe, es, es.len() as int);
            if s.count != self.count {
                stays_long(self.naming.mods, s.naming.mods);
                s.passes_stay(exe, es, (k - 1) as nat);
                stays_through(self.naming.mods, s.naming.mods, s.passes(exe, es, (k - 1) as nat).naming.mods);
            }
        } else {
            same_names_stay(self.naming.mods, self.naming.mods);
        }
    }
}

/// The user names a function at an address.
pub open spec fn names_function(line: Seq<char>, rva: u32, name: Seq<char>) -> bool {
    user_line(line) matches Some((kind, n, v)) && names_func(kind) && n == name && v as u32 == rva
}

proof fn user_line_stays(s: (NamingV, usize), exe: usize, line: Seq<char>)
    requires
        exe < s.0.mods.len(),
    ensures
        user_names_stay(s.0.mods, with_user_line(s, exe, line).0.mods),
{
    same_names_stay(s.0.mods, s.0.mods);
    if let Some((kind, name, v)) = user_line(line) {
        s.0.function_stays(exe as int, v as u32, name, NameSrc::User);
    }
}

proof fn user_lines_stay(s: (NamingV, usize), exe: usize, lines: Seq<Seq<char>>, k: int)
    requires
        exe < s.0.mods.len(),
    ensures
        user_names_stay(s.0.mods, with_user_lines(s, exe, lines, k).0.mods),
    decreases k,
{
    if k > 0 {
        user_lines_stay(s, exe, lines, k - 1);
        let t = with_user_lines(s, exe, lines, k - 1);
        stays_long(s.0.mods, t.0.mods);
        user_line_stays(t, exe, lines[k - 1]);
        stays_through(s.0.mods, t.0.mods, with_user_line(t, exe, lines[k - 1]).0.mods);
    } else {
        same_names_stay(s.0.mods, s.0.mods);
    }
}

proof fn user_texts_stay(s: (NamingV, usize), exe: usize, texts: Seq<Seq<char>>, k: int)
    requires
        exe < s.0.mods.len(),
    ensures
        user_names_stay(s.0.mods, with_user_texts(s, exe, texts, k).0.mods),
    decreases k,
{
    if k > 0 {
        user_texts_stay(s, exe, texts, k - 1);
        let lines = text::lines(texts[k - 1]);
        let t = with_user_texts(s, exe, texts, k - 1);
        stays_long(s.0.mods, t.0.mods);
        user_lines_stay(t, exe, lines, lines.len() as int);
        stays_through(s.0.mods, t.0.mods, with_user_lines(t, exe, lines, lines.len() as int).0.mods);
    } else {
        same_names_stay(s.0.mods, s.0.mods);
    }
}

proof fn line_names(s: (NamingV, usize), exe: usize, lines: Seq<Seq<char>>, k: int, i: int, rva: u32, name: Seq<char>)
    requires
        exe < s.0.mods.len(),
        table::ordered(s.0.mods[exe as int].names),
        0 <= i < k <= lines.len(),
        names_function(lines[i], rva, name),
    ensures
        user_named(with_user_lines(s, exe, lines, k).0.mods[exe as int], rva, name),
    decreases k,
{
    let x = exe as int;
    let t = with_user_lines(s, exe, lines, k - 1);
    user_lines_stay(s, exe, lines, k - 1);
    stays_at(s.0.mods, t.0.mods, x, rva, name);
    if i < k - 1 {
        line_names(s, exe, lines, k - 1, i, rva, name);
        user_line_stays(t, exe, lines[k - 1]);
        stays_at(t.0.mods, with_user_line(t, exe, lines[k - 1]).0.mods, x, rva, name);
    } else {
        let f = t.0.with_function(x, rva);
        assert(f.mods[x].names == t.0.mods[x].names);
        offer_keeps_user_name(f.mods[x], rva, name, NameSrc::User, rva, name);
    }
}

proof fn text_names(
    s: (NamingV, usize),
    exe: usize,
    texts: Seq<Seq<char>>,
    k: int,
    t: int,
    i: int,
    rva: u32,
    name: Seq<char>,
)
    requires
        exe < s.0.mods.len(),
        table::ordered(s.0.mods[exe as int].names),
        0 <= t < k <= texts.len(),
        0 <= i < text::lines(texts[t]).len(),
        names_function(text::lines(texts[t])[i], rva, name),
    ensures
        user_named(with_user_texts(s, exe, texts, k).0.mods[exe as int], rva, name),
    decreases k,
{
    let x = exe as int;
    let u = with_user_texts(s, exe, texts, k - 1);
    let lines = text::lines(texts[k - 1]);
    let n = lines.len() as int;
    user_texts_stay(s, exe, texts, k - 1);
    stays_at(s.0.mods, u.0.mods, x, rva, name);
    if t < k - 1 {
        text_names(s, exe, texts, k - 1, t, i, rva, name);
        user_lines_stay(u, exe, lines, n);
        stays_at(u.0.mods, with_user_lines(u, exe, lines, n).0.mods, x, rva, name);
    } else {
        line_names(u, exe, lines, n, i, rva, name);
    }
}

proof fn slot_names_stay(ms: Seq<ModuleV>, mi: int, list: Seq<(u32, Seq<char>)>, k: int)
    requires
        0 <= mi < ms.len(),
    ensures
        user_names_stay(ms, ms.update(mi, with_slot_names(ms[mi], list, k))),
    decreases k,
{
    if k > 0 {
        slot_names_stay(ms, mi, list, k - 1);
        let t = ms.update(mi, with_slot_names(ms[mi], list, k - 1));
        let (rva, name) = list[k - 1];
        offer_stays(t, mi, rva, name, NameSrc::Vtable);
        let next = ms.update(mi, with_slot_names(ms[mi], list, k));
        assert(t.update(mi, t[mi].with_name(rva, name, NameSrc::Vtable, false)) =~= next);
        stays_through(ms, t, next);
    } else {
        assert(ms.update(mi, ms[mi]) =~= ms);
        same_names_stay(ms, ms);
    }
}

proof fn slots_stay(w: WorldV, k: int)
    requires
        0 <= k <= w.modules.len(),
    ensures
        user_names_stay(w.modules, slots_named(w, k).modules),
    decreases k,
{
    if k > 0 {
        slots_stay(w, k - 1);
        let s = slots_named(w, k - 1);
        stays_long(w.modules, s.modules);
        let list = module_slots(s, k - 1, s.modules[k - 1].rtti.classes.len() as int);
        slot_names_stay(s.modules, k - 1, list, list.len() as int);
        stays_through(w.modules, s.modules, slots_named(w, k).modules);
    } else {
        same_names_stay(w.modules, w.modules);
    }
}

/// A function that the user names has that name in the report, whatever
/// signatures, records and vtables say of it; of several names by the user it
/// has the first in order.
pub proof fn users_functions_keep_names(
    mods: Seq<ModuleV>,
    exe: usize,
    all: Seq<SigV>,
    extras: Seq<ExtraV>,
    texts: Seq<Seq<char>>,
    t: int,
    i: int,
    rva: u32,
    name: Seq<char>,
)
    requires
        exe < mods.len() <= usize::MAX,
        table::ordered(mods[exe as int].names),
        0 <= t < texts.len(),
        0 <= i < text::lines(texts[t]).len(),
        names_function(text::lines(texts[t])[i], rva, name),
    ensures
        user_named(report_of(mods, exe, all, extras, texts).world.modules[exe as int], rva, name),
{
    let n = mods.len() as int;
    let x = exe as int;
    let results = results_of(mods, all, n);
    results_in(mods, all, n, n);
    NamingV::of(mods).results_stay(results, results.len() as int);
    let named = NamingV::of(mods).with_results(results, results.len() as int);
    stays_at(mods, named.mods, x, rva, name);
    let from = FallbackV::of(named, extras.len());
    from.passes_stay(x, extras, PASSES as nat);
    let back = from.passes(x, extras, PASSES as nat);
    stays_at(named.mods, back.naming.mods, x, rva, name);
    text_names((back.naming, 0), exe, texts, texts.len() as int, t, i, rva, name);
    user_texts_stay((back.naming, 0), exe, texts, texts.len() as int);
    let naming = with_user_texts((back.naming, 0), exe, texts, texts.len() as int).0;
    stays_at(back.naming.mods, naming.mods, x, rva, name);
    let ms = owned(naming.mods);
    same_names_stay(naming.mods, ms);
    stays_at(naming.mods, ms, x, rva, name);
    let w = WorldV::of(ms).fields_built();
    world::fields_keep_modules(WorldV::of(ms));
    slots_stay(w, n);
    stays_at(ms, slots_named(w, n).modules, x, rva, name);
}

fn strip_modules(rs: Vec<(usize, SigResult)>) -> (r: Vec<SigResult>)
    ensures
        r.deep_view() == plain_results(rs.deep_view()),
{
    let ghost v = rs.deep_view();
    let mut rs = rs;
    let mut back: Vec<SigResult> = Vec::new();
    while rs.len() > 0
        invariant
            rs@.len() + back@.len() == v.len(),
            forall|k: int| 0 <= k < rs@.len() ==> (#[trigger] rs@[k]).deep_view() == v[k],
            forall|k: int| 0 <= k < back@.len() ==> (#[trigger] back@[k]).deep_view() == v[v.len() - 1 - k].1,
        decreases rs@.len(),
    {
        if let Some(r) = rs.pop() {
            back.push(r.1);
        }
    }
    let mut out: Vec<SigResult> = Vec::new();
    while back.len() > 0
        invariant
            out@.len() + back@.len() == v.len(),
            forall|k: int| 0 <= k < out@.len() ==> (#[trigger] out@[k]).deep_view() == v[k].1,
            forall|k: int| 0 <= k < back@.len() ==> (#[trigger] back@[k]).deep_view() == v[v.len() - 1 - k].1,
        decreases back@.len(),
    {
        if let Some(r) = back.pop() {
            out.push(r);
        }
    }
    assert(out.deep_view() =~= plain_results(v));
    out
}

/// Applies signatures, fallback records and the user's names to modules and
/// builds the program model.
pub fn run(mods: Vec<Module>, all: &Vec<Sig>, extras: &Vec<Extra>, names: &Vec<String>) -> (r: Result<Report, DumpError>)
    ensures
        match r {
            Ok(report) => exe_of(mods.deep_view()) == Some(report.exe) && report.deep_view() == report_of(
                mods.deep_view(),
                report.exe,
                all.deep_view(),
                extras.deep_view(),
                names.deep_view(),
            ) && report.deep_view().wf(),
            Err(e) => e == DumpError::NoModules && mods@.len() == 0,
        },
{
    let exe = match exe_index(&mods) {
        Some(i) => i,
        None => {
            return Err(DumpError::NoModules);
        },
    };
    proof {
        assert(mods.len() == mods@.len());
        report_is_sound(mods.deep_view(), exe, all.deep_view(), extras.deep_view(), names.deep_view());
    }
    let results = apply_all(&mods, all);
    let mut naming = {
        let fields: Vec<FieldName> = Vec::new();
        assert(fields.deep_view() =~= Seq::empty());
        Naming { mods, globals: Table::new(), fields }
    };
    naming.take_results(&results);
    let mut back = Fallback::new(naming, extras.len());
    assert(back.deep_view().done.len() == extras@.len());
    back.try_extras(exe, extras, PASSES);
    let fallback_names = back.count;
    let mut naming = back.naming;
    let user_names = naming.take_user_texts(exe, names);
    let fields = naming.fields;
    let mut named_globals = naming.globals;
    let mut mods = naming.mods;
    compute_owners(&mut mods);
    let mut world = World::new(mods);
    world.build_fields();
    name_globals(&mut named_globals, &world.modules);
    let named_fields = name_fields(&fields);
    name_slots(&mut world);
    let sig_results = strip_modules(results);
    Ok(Report { world, exe, named_fields, named_globals, sig_results, fallback_names, user_names })
}

} // verus!
