//! Program-wide view across modules: the classes of all of them, the fields
//! their code touches, and names for vtable slots.

use vstd::prelude::*;
use vstd::string::StringExecFns;

use crate::analysis::{Access, FieldAccess, FuncFacts, FuncFactsV, Trivial, VType, Val};
use crate::model;
use crate::model::{Module, ModuleV, NameSrc, Owner, OwnerV, SizeInfoV};
use crate::names;
use crate::num;
use crate::rtti;
use crate::rtti::{BaseClass, BaseClassV, Class, ClassV, VtableV};
use crate::structors;
use crate::table;
use crate::table::Table;
use crate::text;

verus! {

pub struct FieldStat {
    pub reads: u32,
    pub writes: u32,
    pub addr: u32,
    pub sizes: Table<u8, ()>,
    pub types: Table<VType, ()>,
    pub ptr: bool,
    pub indexed: bool,
    pub funcs: Table<(usize, u32), ()>,
    pub getters: Table<String, ()>,
    pub setters: Table<String, ()>,
}

/// Model of what is known of a field.
pub ghost struct FieldStatV {
    pub reads: u32,
    pub writes: u32,
    pub addr: u32,
    pub sizes: Seq<(u8, ())>,
    pub types: Seq<(VType, ())>,
    pub ptr: bool,
    pub indexed: bool,
    pub funcs: Seq<((usize, u32), ())>,
    pub getters: Seq<(Seq<char>, ())>,
    pub setters: Seq<(Seq<char>, ())>,
}

impl DeepView for FieldStat {
    type V = FieldStatV;

    open spec fn deep_view(&self) -> FieldStatV {
        FieldStatV {
            reads: self.reads,
            writes: self.writes,
            addr: self.addr,
            sizes: self.sizes.deep_view(),
            types: self.types.deep_view(),
            ptr: self.ptr,
            indexed: self.indexed,
            funcs: self.funcs.deep_view(),
            getters: self.getters.deep_view(),
            setters: self.setters.deep_view(),
        }
    }
}

/// The labels of the first `n` types, but for the unknown one.
pub open spec fn type_labels(types: Seq<(VType, ())>, n: int) -> Seq<Seq<char>>
    decreases n,
{
    if n <= 0 {
        Seq::empty()
    } else {
        let s = type_labels(types, n - 1);
        if types[n - 1].0 == VType::Unknown {
            s
        } else {
            s.push(types[n - 1].0.text())
        }
    }
}

impl FieldStatV {
    /// A field that nothing is known of.
    pub open spec fn blank() -> FieldStatV {
        FieldStatV {
            reads: 0,
            writes: 0,
            addr: 0,
            sizes: Seq::empty(),
            types: Seq::empty(),
            ptr: false,
            indexed: false,
            funcs: Seq::empty(),
            getters: Seq::empty(),
            setters: Seq::empty(),
        }
    }

    pub open spec fn type_hint(self) -> Seq<char> {
        let t = type_labels(self.types, self.types.len() as int);
        if self.ptr {
            "ptr"@
        } else if t.len() > 0 {
            text::joined(t, "|"@, t.len())
        } else if self.addr > 0 {
            "obj"@
        } else {
            "?"@
        }
    }

    /// The field after an access from a function.
    pub open spec fn accessed(self, mi: usize, func: u32, a: FieldAccess, ptr: bool) -> FieldStatV {
        FieldStatV {
            reads: if a.kind == Access::Read {
                self.reads.wrapping_add(1)
            } else {
                self.reads
            },
            writes: if a.kind == Access::Write {
                self.writes.wrapping_add(1)
            } else {
                self.writes
            },
            addr: if a.kind == Access::Addr {
                self.addr.wrapping_add(1)
            } else {
                self.addr
            },
            sizes: if a.size > 0 {
                table::put(self.sizes, a.size, ())
            } else {
                self.sizes
            },
            types: table::put(self.types, a.ty, ()),
            ptr: self.ptr || ptr,
            indexed: self.indexed || a.indexed,
            funcs: table::put(self.funcs, (mi, func), ()),
            ..self
        }
    }

    /// The field with the name of a method that gets or sets it.
    pub open spec fn with_accessor(self, method: Seq<char>, setter: bool) -> FieldStatV {
        if setter {
            FieldStatV { setters: table::put(self.setters, method, ()), ..self }
        } else {
            FieldStatV { getters: table::put(self.getters, method, ()), ..self }
        }
    }
}

impl FieldStat {
    pub fn blank() -> (r: FieldStat)
        ensures
            r.deep_view() == FieldStatV::blank(),
    {
        FieldStat {
            reads: 0,
            writes: 0,
            addr: 0,
            sizes: Table::new(),
            types: Table::new(),
            ptr: false,
            indexed: false,
            funcs: Table::new(),
            getters: Table::new(),
            setters: Table::new(),
        }
    }

    pub fn type_hint(&self) -> (r: String)
        ensures
            r@ == self.deep_view().type_hint(),
    {
        if self.ptr {
            return "ptr".to_owned();
        }
        let ghost t = self.types.deep_view();
        let mut labels: Vec<String> = Vec::new();
        let mut i: usize = 0;
        assert(labels.deep_view() =~= Seq::empty());
        while i < self.types.len()
            invariant
                t == self.types.deep_view(),
                i <= t.len(),
                labels.deep_view() == type_labels(t, i as int),
            decreases t.len() - i,
        {
            let x = *self.types.key_at(i);
            if x != VType::Unknown {
                let ghost before = labels.deep_view();
                labels.push(x.label().to_owned());
                assert(labels.deep_view() =~= before.push(x.text()));
            }
            i += 1;
        }
        if labels.len() == 0 {
            if self.addr > 0 {
                return "obj".to_owned();
            }
            return "?".to_owned();
        }
        text::join(&labels, "|")
    }

    fn access(&mut self, mi: usize, func: u32, a: &FieldAccess, ptr: bool)
        ensures
            final(self).deep_view() == old(self).deep_view().accessed(mi, func, *a, ptr),
    {
        match a.kind {
            Access::Read => {
                self.reads = self.reads.wrapping_add(1);
            },
            Access::Write => {
                self.writes = self.writes.wrapping_add(1);
            },
            Access::Addr => {
                self.addr = self.addr.wrapping_add(1);
            },
        }
        if a.size > 0 {
            self.sizes.insert(a.size, ());
        }
        self.types.insert(a.ty, ());
        self.ptr = self.ptr || ptr;
        self.indexed = self.indexed || a.indexed;
        self.funcs.insert((mi, func), ());
    }
}

pub struct ClassView {
    pub name: String,
    pub module: Option<usize>,
    pub direct_bases: Vec<BaseClass>,
    pub all_bases: Vec<BaseClass>,
    pub size: Option<u64>,
    /// Upper bound from the gap to the next base in some derived class.
    pub inferred_size: Option<u64>,
    /// Hierarchy descriptor seen in some module (bases are authoritative).
    pub has_chd: bool,
    pub vptr_offsets: Table<i32, ()>,
}

/// Model of a class across modules.
pub ghost struct ClassViewV {
    pub name: Seq<char>,
    pub module: Option<usize>,
    pub direct_bases: Seq<BaseClassV>,
    pub all_bases: Seq<BaseClassV>,
    pub size: Option<u64>,
    pub inferred_size: Option<u64>,
    pub has_chd: bool,
    pub vptr_offsets: Seq<(i32, ())>,
}

impl DeepView for ClassView {
    type V = ClassViewV;

    open spec fn deep_view(&self) -> ClassViewV {
        ClassViewV {
            name: self.name@,
            module: self.module,
            direct_bases: self.direct_bases.deep_view(),
            all_bases: self.all_bases.deep_view(),
            size: self.size,
            inferred_size: self.inferred_size,
            has_chd: self.has_chd,
            vptr_offsets: self.vptr_offsets.deep_view(),
        }
    }
}

pub struct World {
    pub modules: Vec<Module>,
    pub classes: Table<String, ClassView>,
    pub fields: Table<String, Table<i32, FieldStat>>,
}

/// Model of the program.
pub ghost struct WorldV {
    pub modules: Seq<ModuleV>,
    pub classes: Seq<(Seq<char>, ClassViewV)>,
    pub fields: Seq<(Seq<char>, Seq<(i32, FieldStatV)>)>,
}

impl DeepView for World {
    type V = WorldV;

    open spec fn deep_view(&self) -> WorldV {
        WorldV {
            modules: self.modules.deep_view(),
            classes: self.classes.deep_view(),
            fields: self.fields.deep_view(),
        }
    }
}

// ---------------------------------------------------------------------------
// Classes.

impl ClassViewV {
    /// A class of which only the name is known.
    pub open spec fn blank(name: Seq<char>) -> ClassViewV {
        ClassViewV {
            name,
            module: None,
            direct_bases: Seq::empty(),
            all_bases: Seq::empty(),
            size: None,
            inferred_size: None,
            has_chd: false,
            vptr_offsets: Seq::empty(),
        }
    }

    /// The class with what one module knows of it.
    pub open spec fn seen_in(self, mi: usize, c: ClassV, size: Option<SizeInfoV>) -> ClassViewV {
        let longer = self.all_bases.len() < c.all_bases.len();
        ClassViewV {
            module: if c.vtables.len() > 0 && self.module is None {
                Some(mi)
            } else {
                self.module
            },
            has_chd: self.has_chd || c.chd_rva is Some,
            direct_bases: if longer {
                c.direct_bases
            } else {
                self.direct_bases
            },
            all_bases: if longer {
                c.all_bases
            } else {
                self.all_bases
            },
            vptr_offsets: with_vptrs(self.vptr_offsets, c.vtables, c.vtables.len() as int),
            size: match size {
                Some(s) => if self.size is None || s.source == "sized delete"@ {
                    Some(s.size)
                } else {
                    self.size
                },
                None => self.size,
            },
            ..self
        }
    }
}

/// The offsets with those of the first `n` vtables.
pub open spec fn with_vptrs(offs: Seq<(i32, ())>, vs: Seq<VtableV>, n: int) -> Seq<(i32, ())>
    decreases n,
{
    if n <= 0 {
        offs
    } else {
        table::put(with_vptrs(offs, vs, n - 1), vs[n - 1].offset as i32, ())
    }
}

pub type Classes = Seq<(Seq<char>, ClassViewV)>;

pub open spec fn view_of(cs: Classes, name: Seq<char>) -> ClassViewV {
    match table::get(cs, name) {
        Some(v) => v,
        None => ClassViewV::blank(name),
    }
}

/// The classes with the first `n` of a module.
pub open spec fn module_classes(cs: Classes, m: ModuleV, mi: usize, n: int) -> Classes
    decreases n,
{
    if n <= 0 {
        cs
    } else {
        let s = module_classes(cs, m, mi, n - 1);
        let c = m.rtti.classes[n - 1].1;
        table::put(s, c.name, view_of(s, c.name).seen_in(mi, c, table::get(m.sizes, c.name)))
    }
}

/// The classes of the first `n` modules.
pub open spec fn all_classes(ms: Seq<ModuleV>, n: int) -> Classes
    decreases n,
{
    if n <= 0 {
        Seq::empty()
    } else {
        let m = ms[n - 1];
        module_classes(all_classes(ms, n - 1), m, (n - 1) as usize, m.rtti.classes.len() as int)
    }
}

/// Those of the first `n` bases that are not virtual bases.
pub open spec fn plain_bases(bases: Seq<BaseClassV>, n: int) -> Seq<BaseClassV>
    decreases n,
{
    if n <= 0 {
        Seq::empty()
    } else {
        let s = plain_bases(bases, n - 1);
        if bases[n - 1].pdisp == -1 {
            s.push(bases[n - 1])
        } else {
            s
        }
    }
}

pub open spec fn base_offsets(bases: Seq<BaseClassV>) -> Seq<i32> {
    Seq::new(bases.len(), |i: int| bases[i].mdisp)
}

/// The direct bases that are not virtual, by their offsets.
pub open spec fn laid_bases(c: ClassViewV) -> Seq<BaseClassV> {
    let b = plain_bases(c.direct_bases, c.direct_bases.len() as int);
    table::sorted_by(base_offsets(b), b)
}

/// Distances to the next base, by class.
pub type Gaps = Seq<(Seq<char>, u64)>;

/// The gaps with those behind the first `n` bases.
pub open spec fn gaps_in(gaps: Gaps, bs: Seq<BaseClassV>, n: int) -> Gaps
    decreases n,
{
    if n <= 0 {
        gaps
    } else {
        let s = gaps_in(gaps, bs, n - 1);
        let g = bs[n].mdisp.wrapping_sub(bs[n - 1].mdisp) as u64;
        let e = match table::get(s, bs[n - 1].name) {
            Some(e) => if e < g {
                e
            } else {
                g
            },
            None => g,
        };
        table::put(s, bs[n - 1].name, e)
    }
}

/// The smallest gap behind each class as a base of the first `n` classes.
pub open spec fn gaps_of(cs: Classes, n: int) -> Gaps
    decreases n,
{
    if n <= 0 {
        Seq::empty()
    } else {
        let bs = laid_bases(cs[n - 1].1);
        gaps_in(gaps_of(cs, n - 1), bs, bs.len() - 1)
    }
}

/// The classes with sizes inferred from the first `n` gaps.
pub open spec fn with_gaps(cs: Classes, gaps: Gaps, n: int) -> Classes
    decreases n,
{
    if n <= 0 {
        cs
    } else {
        let s = with_gaps(cs, gaps, n - 1);
        match table::get(s, gaps[n - 1].0) {
            Some(v) => table::put(
                s,
                gaps[n - 1].0,
                ClassViewV { inferred_size: Some(gaps[n - 1].1), ..v },
            ),
            None => s,
        }
    }
}

impl WorldV {
    /// The program that modules make up.
    pub open spec fn of(ms: Seq<ModuleV>) -> WorldV {
        let cs = all_classes(ms, ms.len() as int);
        let gaps = gaps_of(cs, cs.len() as int);
        WorldV { modules: ms, classes: with_gaps(cs, gaps, gaps.len() as int), fields: Seq::empty() }
    }
}

/// Every class comes from one of the first `n` modules, or from none.
pub open spec fn sit_in(cs: Classes, n: int) -> bool {
    forall|i: int| 0 <= i < cs.len() ==> ((#[trigger] cs[i]).1.module matches Some(m) ==> m < n)
}

proof fn class_put_sits(cs: Classes, name: Seq<char>, v: ClassViewV, n: int)
    requires
        sit_in(cs, n),
        v.module matches Some(m) ==> m < n,
    ensures
        sit_in(table::put(cs, name, v), n),
{
    let t = table::put(cs, name, v);
    table::rows_after_put(cs, name, v);
    assert forall|i: int| 0 <= i < t.len() implies ((#[trigger] t[i]).1.module matches Some(m) ==> m < n) by {
        if cs.contains(t[i]) {
            let j = choose|j: int| 0 <= j < cs.len() && cs[j] == t[i];
            assert(cs[j].1.module == t[i].1.module);
        }
    }
}

proof fn class_sits(cs: Classes, name: Seq<char>, n: int)
    requires
        sit_in(cs, n),
    ensures
        table::get(cs, name) matches Some(v) ==> (v.module matches Some(m) ==> m < n),
{
    table::get_is_row(cs, name);
    if let Some(v) = table::get(cs, name) {
        let j = choose|j: int| 0 <= j < cs.len() && cs[j] == (name, v);
        assert(cs[j].1.module == v.module);
    }
}

proof fn module_classes_sit(cs: Classes, m: ModuleV, mi: usize, k: int, n: int)
    requires
        sit_in(cs, n),
        mi < n,
    ensures
        sit_in(module_classes(cs, m, mi, k), n),
    decreases k,
{
    if k > 0 {
        module_classes_sit(cs, m, mi, k - 1, n);
        let s = module_classes(cs, m, mi, k - 1);
        let c = m.rtti.classes[k - 1].1;
        class_sits(s, c.name, n);
        class_put_sits(s, c.name, view_of(s, c.name).seen_in(mi, c, table::get(m.sizes, c.name)), n);
    }
}

proof fn all_classes_sit(ms: Seq<ModuleV>, k: int, n: int)
    requires
        0 <= k <= n <= usize::MAX,
    ensures
        sit_in(all_classes(ms, k), n),
    decreases k,
{
    if k > 0 {
        all_classes_sit(ms, k - 1, n);
        module_classes_sit(all_classes(ms, k - 1), ms[k - 1], (k - 1) as usize, ms[k - 1].rtti.classes.len() as int, n);
    }
}

proof fn gaps_sit(cs: Classes, gaps: Gaps, k: int, n: int)
    requires
        sit_in(cs, n),
    ensures
        sit_in(with_gaps(cs, gaps, k), n),
    decreases k,
{
    if k > 0 {
        gaps_sit(cs, gaps, k - 1, n);
        let s = with_gaps(cs, gaps, k - 1);
        class_sits(s, gaps[k - 1].0, n);
        if let Some(v) = table::get(s, gaps[k - 1].0) {
            class_put_sits(s, gaps[k - 1].0, ClassViewV { inferred_size: Some(gaps[k - 1].1), ..v }, n);
        }
    }
}

proof fn uses_keep_classes(w: WorldV, uses: Seq<FieldUseV>, n: int)
    ensures
        with_uses(w, uses, n).classes == w.classes,
        with_uses(w, uses, n).modules == w.modules,
    decreases n,
{
    if n > 0 {
        uses_keep_classes(w, uses, n - 1);
    }
}

proof fn accessors_keep_classes(w: WorldV, list: Seq<AccessorV>, n: int)
    ensures
        with_accessors(w, list, n).classes == w.classes,
        with_accessors(w, list, n).modules == w.modules,
    decreases n,
{
    if n > 0 {
        accessors_keep_classes(w, list, n - 1);
    }
}

/// The classes of a program come from its modules, and looking for fields
/// changes neither.
pub proof fn classes_sit(ms: Seq<ModuleV>)
    requires
        ms.len() <= usize::MAX,
    ensures
        WorldV::of(ms).fields_built().modules == ms,
        WorldV::of(ms).fields_built().classes == WorldV::of(ms).classes,
        sit_in(WorldV::of(ms).classes, ms.len() as int),
{
    let w = WorldV::of(ms);
    let cs = all_classes(ms, ms.len() as int);
    let gaps = gaps_of(cs, cs.len() as int);
    all_classes_sit(ms, ms.len() as int, ms.len() as int);
    gaps_sit(cs, gaps, gaps.len() as int, ms.len() as int);
    let f = found_in(ms, ms.len() as int);
    uses_keep_classes(w, f.uses, f.uses.len() as int);
    accessors_keep_classes(with_uses(w, f.uses, f.uses.len() as int), f.accessors, f.accessors.len() as int);
}

impl ClassView {
    fn blank(name: &str) -> (r: ClassView)
        ensures
            r.deep_view() == ClassViewV::blank(name@),
    {
        let direct_bases: Vec<BaseClass> = Vec::new();
        assert(direct_bases.deep_view() =~= Seq::empty());
        let all_bases: Vec<BaseClass> = Vec::new();
        assert(all_bases.deep_view() =~= Seq::empty());
        ClassView {
            name: name.to_owned(),
            module: None,
            direct_bases,
            all_bases,
            size: None,
            inferred_size: None,
            has_chd: false,
            vptr_offsets: Table::new(),
        }
    }

    fn see(&mut self, mi: usize, c: &Class, size: Option<&model::SizeInfo>)
        ensures
            final(self).deep_view() == old(self).deep_view().seen_in(mi, c.deep_view(), size.deep_view()),
    {
        if c.vtables.len() > 0 && self.module.is_none() {
            self.module = Some(mi);
        }
        self.has_chd = self.has_chd || c.chd_rva.is_some();
        if self.all_bases.len() < c.all_bases.len() {
            self.direct_bases = rtti::copy_bases(&c.direct_bases);
            self.all_bases = rtti::copy_bases(&c.all_bases);
        }
        let ghost offs = self.vptr_offsets.deep_view();
        let ghost before = self.deep_view();
        let ghost vs = c.vtables.deep_view();
        let mut i: usize = 0;
        while i < c.vtables.len()
            invariant
                vs == c.vtables.deep_view(),
                i <= c.vtables@.len(),
                offs == before.vptr_offsets,
                self.deep_view() == (ClassViewV { vptr_offsets: with_vptrs(offs, vs, i as int), ..before }),
            decreases c.vtables@.len() - i,
        {
            self.vptr_offsets.insert(c.vtables[i].offset as i32, ());
            i += 1;
        }
        if let Some(s) = size {
            if self.size.is_none() || text::same(s.source, "sized delete") {
                self.size = Some(s.size);
            }
        }
    }

    fn bases_by_offset(&self) -> (r: Vec<BaseClass>)
        ensures
            r.deep_view() == laid_bases(self.deep_view()),
    {
        let ghost d = self.direct_bases.deep_view();
        let mut list: Vec<BaseClass> = Vec::new();
        let mut keys: Vec<i32> = Vec::new();
        let mut i: usize = 0;
        assert(list.deep_view() =~= Seq::empty());
        while i < self.direct_bases.len()
            invariant
                d == self.direct_bases.deep_view(),
                i <= self.direct_bases@.len(),
                list.deep_view() == plain_bases(d, i as int),
                keys@ == base_offsets(list.deep_view()),
            decreases self.direct_bases@.len() - i,
        {
            let b = &self.direct_bases[i];
            if b.pdisp == -1 {
                let ghost before = list.deep_view();
                keys.push(b.mdisp);
                list.push(b.clone());
                assert(list.deep_view() =~= before.push(d[i as int]));
                assert(keys@ =~= base_offsets(list.deep_view()));
            }
            i += 1;
        }
        assert(table::key_models(keys@) =~= keys@);
        table::stable_sort(keys, list)
    }
}

fn add_gaps(gaps: &mut Table<String, u64>, bs: &Vec<BaseClass>)
    ensures
        final(gaps).deep_view() == gaps_in(old(gaps).deep_view(), bs.deep_view(), bs@.len() - 1),
{
    let ghost before = gaps.deep_view();
    let ghost b = bs.deep_view();
    let mut i: usize = 0;
    if bs.len() == 0 {
        return;
    }
    while i < bs.len() - 1
        invariant
            before == old(gaps).deep_view(),
            b == bs.deep_view(),
            bs@.len() > 0,
            i <= bs@.len() - 1,
            gaps.deep_view() == gaps_in(before, b, i as int),
        decreases bs@.len() - i,
    {
        let g = bs[i + 1].mdisp.wrapping_sub(bs[i].mdisp) as u64;
        let name = bs[i].name.clone();
        let e: u64 = match gaps.get(&name) {
            Some(e) => if *e < g {
                *e
            } else {
                g
            },
            None => g,
        };
        assert(b[i as int].name == name@);
        gaps.insert(name, e);
        i += 1;
    }
}

fn add_classes(classes: &mut Table<String, ClassView>, m: &Module, mi: usize)
    ensures
        final(classes).deep_view() == module_classes(
            old(classes).deep_view(),
            m.deep_view(),
            mi,
            m.deep_view().rtti.classes.len() as int,
        ),
{
    let ghost before = classes.deep_view();
    let ghost mv = m.deep_view();
    let mut i: usize = 0;
    while i < m.rtti.classes.len()
        invariant
            before == old(classes).deep_view(),
            mv == m.deep_view(),
            i <= mv.rtti.classes.len(),
            classes.deep_view() == module_classes(before, mv, mi, i as int),
        decreases mv.rtti.classes.len() - i,
    {
        let c = m.rtti.classes.value_at(i);
        let mut v = match classes.take(&c.name) {
            Some(v) => v,
            None => ClassView::blank(c.name.as_str()),
        };
        v.see(mi, c, m.sizes.get(&c.name));
        classes.insert(c.name.clone(), v);
        i += 1;
    }
}

impl World {
    /// Brings modules together.
    pub fn new(modules: Vec<Module>) -> (r: World)
        ensures
            r.deep_view() == WorldV::of(modules.deep_view()),
    {
        let ghost ms = modules.deep_view();
        let mut classes: Table<String, ClassView> = Table::new();
        let mut i: usize = 0;
        while i < modules.len()
            invariant
                ms == modules.deep_view(),
                i <= modules@.len(),
                classes.deep_view() == all_classes(ms, i as int),
            decreases modules@.len() - i,
        {
            add_classes(&mut classes, &modules[i], i);
            i += 1;
        }
        let ghost cs = classes.deep_view();
        let mut gaps: Table<String, u64> = Table::new();
        i = 0;
        while i < classes.len()
            invariant
                cs == classes.deep_view(),
                i <= cs.len(),
                gaps.deep_view() == gaps_of(cs, i as int),
            decreases cs.len() - i,
        {
            let bs = classes.value_at(i).bases_by_offset();
            add_gaps(&mut gaps, &bs);
            i += 1;
        }
        i = 0;
        while i < gaps.len()
            invariant
                i <= gaps.deep_view().len(),
                classes.deep_view() == with_gaps(cs, gaps.deep_view(), i as int),
            decreases gaps.deep_view().len() - i,
        {
            let n = gaps.key_at(i).clone();
            match classes.take(&n) {
                Some(v) => {
                    let mut v = v;
                    v.inferred_size = Some(*gaps.value_at(i));
                    classes.insert(n, v);
                },
                None => {},
            }
            i += 1;
        }
        World { modules, classes, fields: Table::new() }
    }
}

// ---------------------------------------------------------------------------
// Fields.

/// Where the base at index `i` ends inside the object.
pub open spec fn base_end(w: WorldV, bs: Seq<BaseClassV>, i: int) -> Option<i64> {
    match w.bound_of(bs[i].name) {
        Some(s) => Some((bs[i].mdisp as i64).wrapping_add(s as i64)),
        None => if i + 1 < bs.len() {
            Some(bs[i + 1].mdisp as i64)
        } else if bs[i].mdisp > 0 {
            Some((bs[i].mdisp + 8) as i64)
        } else {
            None
        },
    }
}

/// The first base from `i` on that holds an offset, and the offset inside it.
pub open spec fn holding_base(w: WorldV, bs: Seq<BaseClassV>, off: i32, i: int) -> Option<(Seq<char>, i32)>
    decreases bs.len() - i,
{
    if i < 0 || i >= bs.len() {
        None
    } else {
        let inside = match base_end(w, bs, i) {
            Some(u) => bs[i].mdisp <= off && off < u,
            None => false,
        };
        if inside {
            Some((bs[i].name, off.wrapping_sub(bs[i].mdisp)))
        } else {
            holding_base(w, bs, off, i + 1)
        }
    }
}

impl WorldV {
    pub open spec fn size_of(self, c: Seq<char>) -> Option<u64> {
        match table::get(self.classes, c) {
            Some(v) => v.size,
            None => None,
        }
    }

    /// The size of a class, or an upper bound for it.
    pub open spec fn bound_of(self, c: Seq<char>) -> Option<u64> {
        match table::get(self.classes, c) {
            Some(v) => if v.size is Some {
                v.size
            } else {
                v.inferred_size
            },
            None => None,
        }
    }

    /// The class that declares an offset, at most `n` bases down.
    pub open spec fn resolve_within(self, class: Seq<char>, off: i32, n: nat) -> (Seq<char>, i32)
        decreases n,
    {
        if n == 0 {
            (class, off)
        } else {
            match table::get(self.classes, class) {
                None => (class, off),
                Some(v) => match holding_base(self, laid_bases(v), off, 0) {
                    Some((b, o)) => self.resolve_within(b, o, (n - 1) as nat),
                    None => (class, off),
                },
            }
        }
    }

    pub open spec fn resolve_field(self, class: Seq<char>, off: i32) -> (Seq<char>, i32) {
        self.resolve_within(class, off, 64)
    }

    /// The field at an offset of a class.
    pub open spec fn field(self, class: Seq<char>, off: i32) -> FieldStatV {
        match table::get(table::list_at(self.fields, class), off) {
            Some(f) => f,
            None => FieldStatV::blank(),
        }
    }

    pub open spec fn with_field(self, class: Seq<char>, off: i32, f: FieldStatV) -> WorldV {
        WorldV {
            fields: table::put(self.fields, class, table::put(table::list_at(self.fields, class), off, f)),
            ..self
        }
    }

    /// An offset of a class holds a vtable pointer.
    pub open spec fn is_vptr(self, class: Seq<char>, off: i32) -> bool {
        match table::get(self.classes, class) {
            Some(v) => table::holds(v.vptr_offsets, off),
            None => false,
        }
    }
}

/// A field access of a function of a class.
#[derive(Debug)]
pub struct FieldUse {
    pub module: usize,
    pub func: u32,
    pub class: String,
    pub off: i32,
    pub access: FieldAccess,
    pub ptr: bool,
}

/// Model of a field access.
pub ghost struct FieldUseV {
    pub module: usize,
    pub func: u32,
    pub class: Seq<char>,
    pub off: i32,
    pub access: FieldAccess,
    pub ptr: bool,
}

impl DeepView for FieldUse {
    type V = FieldUseV;

    open spec fn deep_view(&self) -> FieldUseV {
        FieldUseV {
            module: self.module,
            func: self.func,
            class: self.class@,
            off: self.off,
            access: self.access,
            ptr: self.ptr,
        }
    }
}

/// A trivial getter or setter with a name.
#[derive(Debug)]
pub struct Accessor {
    pub class: String,
    pub off: i32,
    pub method: String,
    pub setter: bool,
}

/// Model of a named getter or setter.
pub ghost struct AccessorV {
    pub class: Seq<char>,
    pub off: i32,
    pub method: Seq<char>,
    pub setter: bool,
}

impl DeepView for Accessor {
    type V = AccessorV;

    open spec fn deep_view(&self) -> AccessorV {
        AccessorV { class: self.class@, off: self.off, method: self.method@, setter: self.setter }
    }
}

impl WorldV {
    /// The program after a field access; vtable pointers are no fields.
    pub open spec fn with_use(self, u: FieldUseV) -> WorldV {
        let (cls, o) = self.resolve_field(u.class, u.off);
        if self.is_vptr(cls, o) && (u.access.size == 8 || u.access.size == 0) {
            self
        } else {
            self.with_field(cls, o, self.field(cls, o).accessed(u.module, u.func, u.access, u.ptr))
        }
    }

    /// The program after a named getter or setter.
    pub open spec fn with_accessor(self, a: AccessorV) -> WorldV {
        let (cls, o) = self.resolve_field(a.class, a.off);
        self.with_field(cls, o, self.field(cls, o).with_accessor(a.method, a.setter))
    }
}

/// `out` with the first `n` accesses that a function makes to its class.
pub open spec fn own_uses(
    out: Seq<FieldUseV>,
    mi: usize,
    fr: u32,
    o: OwnerV,
    f: FuncFactsV,
    n: int,
) -> Seq<FieldUseV>
    decreases n,
{
    if n <= 0 {
        out
    } else {
        let a = f.fields[n - 1];
        own_uses(out, mi, fr, o, f, n - 1).push(
            FieldUseV {
                module: mi,
                func: fr,
                class: o.class,
                off: a.off.wrapping_add(o.adj),
                access: a,
                ptr: a.size == 8 && f.ptr_fields.contains(a.off),
            },
        )
    }
}

/// The method that the first alias from `i` on gives a function of a class.
pub open spec fn alias_method(aliases: Seq<(Seq<char>, ())>, class: Seq<char>, i: int) -> Option<Seq<char>>
    decreases aliases.len() - i,
{
    if i < 0 || i >= aliases.len() {
        None
    } else {
        match names::member_parts(aliases[i].0) {
            Some((c, meth)) => if c == class {
                Some(meth)
            } else {
                alias_method(aliases, class, i + 1)
            },
            None => alias_method(aliases, class, i + 1),
        }
    }
}

/// The field that a trivial function gets or sets.
pub open spec fn trivial_field(t: Option<Trivial>) -> Option<(i32, bool)> {
    match t {
        Some(Trivial::Getter { off, size, ty }) => Some((off, false)),
        Some(Trivial::RefGetter { off }) => Some((off, false)),
        Some(Trivial::Setter { off, size, ty }) => Some((off, true)),
        _ => None,
    }
}

/// The named getter or setter that a function is.
pub open spec fn accessor_of(m: ModuleV, fr: u32, o: OwnerV, f: FuncFactsV) -> Option<AccessorV> {
    match (trivial_field(f.trivial), alias_method(table::list_at(m.aliases, fr), o.class, 0)) {
        (Some((off, setter)), Some(method)) => Some(
            AccessorV { class: o.class, off: off.wrapping_add(o.adj), method, setter },
        ),
        _ => None,
    }
}

/// What is found out about fields.
pub ghost struct Found {
    pub uses: Seq<FieldUseV>,
    pub accessors: Seq<AccessorV>,
}

/// What the first `n` owned functions of a module show.
pub open spec fn found_owned(m: ModuleV, found: Found, mi: usize, n: int) -> Found
    decreases n,
{
    if n <= 0 {
        found
    } else {
        let s = found_owned(m, found, mi, n - 1);
        let (fr, o) = m.owner[n - 1];
        match m.func(fr) {
            Some(f) => if f.uses_this {
                Found {
                    uses: own_uses(s.uses, mi, fr, o, f, f.fields.len() as int),
                    accessors: match accessor_of(m, fr, o, f) {
                        Some(a) => s.accessors.push(a),
                        None => s.accessors,
                    },
                }
            } else {
                s
            },
            None => s,
        }
    }
}

/// `out` with the first `n` accesses to fresh allocations: inlined
/// constructors inside create()-style functions.
pub open spec fn fresh_uses(m: ModuleV, out: Seq<FieldUseV>, mi: usize, f: FuncFactsV, n: int) -> Seq<FieldUseV>
    decreases n,
{
    if n <= 0 {
        out
    } else {
        let s = fresh_uses(m, out, mi, f, n - 1);
        let (id, a) = f.alloc_fields[n - 1];
        let cs = structors::stored_classes(m, f.vt_stores, Val::Alloc(id, 0), f.vt_stores.len() as int);
        if cs.len() > 0 {
            s.push(
                FieldUseV { module: mi, func: f.start, class: cs.last(), off: a.off, access: a, ptr: false },
            )
        } else {
            s
        }
    }
}

/// What the allocations of the first `n` functions of a module show.
pub open spec fn found_fresh(m: ModuleV, out: Seq<FieldUseV>, mi: usize, n: int) -> Seq<FieldUseV>
    decreases n,
{
    if n <= 0 {
        out
    } else {
        let f = m.code.funcs[n - 1].1;
        fresh_uses(m, found_fresh(m, out, mi, n - 1), mi, f, f.alloc_fields.len() as int)
    }
}

/// What the first `n` modules show.
pub open spec fn found_in(ms: Seq<ModuleV>, n: int) -> Found
    decreases n,
{
    if n <= 0 {
        Found { uses: Seq::empty(), accessors: Seq::empty() }
    } else {
        let m = ms[n - 1];
        let mi = (n - 1) as usize;
        let s = found_owned(m, found_in(ms, n - 1), mi, m.owner.len() as int);
        Found { uses: found_fresh(m, s.uses, mi, m.code.funcs.len() as int), ..s }
    }
}

/// The program after the first `n` uses.
pub open spec fn with_uses(w: WorldV, uses: Seq<FieldUseV>, n: int) -> WorldV
    decreases n,
{
    if n <= 0 {
        w
    } else {
        with_uses(w, uses, n - 1).with_use(uses[n - 1])
    }
}

/// The program after the first `n` accessors.
pub open spec fn with_accessors(w: WorldV, list: Seq<AccessorV>, n: int) -> WorldV
    decreases n,
{
    if n <= 0 {
        w
    } else {
        with_accessors(w, list, n - 1).with_accessor(list[n - 1])
    }
}

impl WorldV {
    /// The program with the fields that its code touches.
    pub open spec fn fields_built(self) -> WorldV {
        let f = found_in(self.modules, self.modules.len() as int);
        let w = with_uses(self, f.uses, f.uses.len() as int);
        with_accessors(w, f.accessors, f.accessors.len() as int)
    }
}

proof fn uses_keep_modules(w: WorldV, uses: Seq<FieldUseV>, n: int)
    ensures
        with_uses(w, uses, n).modules == w.modules,
    decreases n,
{
    if n > 0 {
        uses_keep_modules(w, uses, n - 1);
    }
}

proof fn accessors_keep_modules(w: WorldV, list: Seq<AccessorV>, n: int)
    ensures
        with_accessors(w, list, n).modules == w.modules,
    decreases n,
{
    if n > 0 {
        accessors_keep_modules(w, list, n - 1);
    }
}

/// Collecting fields leaves the modules alone.
pub proof fn fields_keep_modules(w: WorldV)
    ensures
        w.fields_built().modules == w.modules,
{
    let f = found_in(w.modules, w.modules.len() as int);
    uses_keep_modules(w, f.uses, f.uses.len() as int);
    accessors_keep_modules(with_uses(w, f.uses, f.uses.len() as int), f.accessors, f.accessors.len() as int);
}

fn has_offset(list: &Vec<i32>, off: i32) -> (r: bool)
    ensures
        r == list@.contains(off),
{
    let mut i: usize = 0;
    while i < list.len()
        invariant
            i <= list@.len(),
            forall|k: int| 0 <= k < i ==> list@[k] != off,
        decreases list@.len() - i,
    {
        if list[i] == off {
            assert(list@[i as int] == off);
            return true;
        }
        i += 1;
    }
    false
}

fn add_own_uses(out: &mut Vec<FieldUse>, mi: usize, fr: u32, o: &Owner, f: &FuncFacts)
    ensures
        final(out).deep_view() == own_uses(
            old(out).deep_view(),
            mi,
            fr,
            o.deep_view(),
            f.deep_view(),
            f.fields@.len() as int,
        ),
{
    let ghost before = out.deep_view();
    let ghost fv = f.deep_view();
    let mut i: usize = 0;
    while i < f.fields.len()
        invariant
            before == old(out).deep_view(),
            fv == f.deep_view(),
            i <= f.fields@.len(),
            out.deep_view() == own_uses(before, mi, fr, o.deep_view(), fv, i as int),
        decreases f.fields@.len() - i,
    {
        let a = f.fields[i];
        let ghost pre = out.deep_view();
        let u = FieldUse {
            module: mi,
            func: fr,
            class: o.class.clone(),
            off: a.off.wrapping_add(o.adj),
            access: a,
            ptr: a.size == 8 && has_offset(&f.ptr_fields, a.off),
        };
        let ghost x = u.deep_view();
        out.push(u);
        assert(out.deep_view() =~= pre.push(x));
        i += 1;
    }
}

fn find_alias_method(aliases: &Table<String, ()>, class: &str) -> (r: Option<String>)
    ensures
        r.deep_view() == alias_method(aliases.deep_view(), class@, 0),
{
    let ghost a = aliases.deep_view();
    let mut i: usize = 0;
    while i < aliases.len()
        invariant
            a == aliases.deep_view(),
            i <= a.len(),
            alias_method(a, class@, 0) == alias_method(a, class@, i as int),
        decreases a.len() - i,
    {
        if let Some((c, meth)) = names::split_member(aliases.key_at(i).as_str()) {
            if text::same(c, class) {
                return Some(meth.to_owned());
            }
        }
        i += 1;
    }
    None
}

fn find_accessor(m: &Module, fr: u32, o: &Owner, f: &FuncFacts) -> (r: Option<Accessor>)
    ensures
        r.deep_view() == accessor_of(m.deep_view(), fr, o.deep_view(), f.deep_view()),
{
    let field = match f.trivial {
        Some(Trivial::Getter { off, .. }) => Some((off, false)),
        Some(Trivial::RefGetter { off }) => Some((off, false)),
        Some(Trivial::Setter { off, .. }) => Some((off, true)),
        _ => None,
    };
    let method = match m.aliases.get(&fr) {
        Some(a) => find_alias_method(a, o.class.as_str()),
        None => None,
    };
    match (field, method) {
        (Some((off, setter)), Some(method)) => Some(
            Accessor { class: o.class.clone(), off: off.wrapping_add(o.adj), method, setter },
        ),
        _ => None,
    }
}

fn look_at_owned(m: &Module, mi: usize, uses: &mut Vec<FieldUse>, accessors: &mut Vec<Accessor>)
    ensures
        (Found { uses: final(uses).deep_view(), accessors: final(accessors).deep_view() }) == found_owned(
            m.deep_view(),
            (Found { uses: old(uses).deep_view(), accessors: old(accessors).deep_view() }),
            mi,
            m.deep_view().owner.len() as int,
        ),
{
    let ghost mv = m.deep_view();
    let ghost before = Found { uses: uses.deep_view(), accessors: accessors.deep_view() };
    let mut i: usize = 0;
    while i < m.owner.len()
        invariant
            mv == m.deep_view(),
            before == (Found { uses: old(uses).deep_view(), accessors: old(accessors).deep_view() }),
            i <= mv.owner.len(),
            (Found { uses: uses.deep_view(), accessors: accessors.deep_view() }) == found_owned(mv, before, mi, i as int),
        decreases mv.owner.len() - i,
    {
        let fr = *m.owner.key_at(i);
        let o = m.owner.value_at(i);
        if let Some(f) = m.func(fr) {
            if f.uses_this {
                add_own_uses(uses, mi, fr, o, f);
                if let Some(a) = find_accessor(m, fr, o, f) {
                    let ghost pre = accessors.deep_view();
                    let ghost x = a.deep_view();
                    accessors.push(a);
                    assert(accessors.deep_view() =~= pre.push(x));
                }
            }
        }
        i += 1;
    }
}

fn look_at_fresh(m: &Module, mi: usize, uses: &mut Vec<FieldUse>)
    ensures
        final(uses).deep_view() == found_fresh(
            m.deep_view(),
            old(uses).deep_view(),
            mi,
            m.deep_view().code.funcs.len() as int,
        ),
{
    let ghost mv = m.deep_view();
    let ghost before = uses.deep_view();
    let mut i: usize = 0;
    while i < m.code.funcs.len()
        invariant
            mv == m.deep_view(),
            before == old(uses).deep_view(),
            i <= mv.code.funcs.len(),
            uses.deep_view() == found_fresh(mv, before, mi, i as int),
        decreases mv.code.funcs.len() - i,
    {
        let f = m.code.funcs.value_at(i);
        let ghost fv = f.deep_view();
        let ghost pre = uses.deep_view();
        let mut k: usize = 0;
        while k < f.alloc_fields.len()
            invariant
                mv == m.deep_view(),
                fv == f.deep_view(),
                k <= f.alloc_fields@.len(),
                uses.deep_view() == fresh_uses(mv, pre, mi, fv, k as int),
            decreases f.alloc_fields@.len() - k,
        {
            let (id, a) = f.alloc_fields[k];
            let mut cs = m.classes_stored(&f.vt_stores, Val::Alloc(id, 0));
            let ghost list = cs.deep_view();
            if cs.len() > 0 {
                let class = cs[cs.len() - 1].clone();
                assert(class@ == list.last());
                let ghost was = uses.deep_view();
                let u = FieldUse { module: mi, func: f.start, class, off: a.off, access: a, ptr: false };
                let ghost x = u.deep_view();
                uses.push(u);
                assert(uses.deep_view() =~= was.push(x));
            }
            k += 1;
        }
        i += 1;
    }
}

impl World {
    pub fn size_of(&self, c: &str) -> (r: Option<u64>)
        ensures
            r == self.deep_view().size_of(c@),
    {
        match self.classes.get(&c.to_owned()) {
            Some(v) => v.size,
            None => None,
        }
    }

    fn bound(&self, c: &str) -> (r: Option<u64>)
        ensures
            r == self.deep_view().bound_of(c@),
    {
        match self.classes.get(&c.to_owned()) {
            Some(v) => if v.size.is_some() {
                v.size
            } else {
                v.inferred_size
            },
            None => None,
        }
    }

    fn find_holding_base(&self, bs: &Vec<BaseClass>, off: i32) -> (r: Option<(String, i32)>)
        ensures
            r.deep_view() == holding_base(self.deep_view(), bs.deep_view(), off, 0),
    {
        let ghost w = self.deep_view();
        let ghost b = bs.deep_view();
        let mut i: usize = 0;
        while i < bs.len()
            invariant
                w == self.deep_view(),
                b == bs.deep_view(),
                i <= bs@.len(),
                holding_base(w, b, off, 0) == holding_base(w, b, off, i as int),
            decreases bs@.len() - i,
        {
            let x = &bs[i];
            assert(x.deep_view() == b[i as int]);
            let end: Option<i64> = match self.bound(x.name.as_str()) {
                Some(s) => Some((x.mdisp as i64).wrapping_add(s as i64)),
                None => if i + 1 < bs.len() {
                    assert(bs@[i + 1].deep_view() == b[i + 1]);
                    Some(bs[i + 1].mdisp as i64)
                } else if x.mdisp > 0 {
                    Some(x.mdisp as i64 + 8)
                } else {
                    None
                },
            };
            let inside = match end {
                Some(u) => x.mdisp <= off && (off as i64) < u,
                None => false,
            };
            if inside {
                return Some((x.name.clone(), off.wrapping_sub(x.mdisp)));
            }
            i += 1;
        }
        None
    }

    /// Map `(class, offset)` to the class that actually declares that offset.
    pub fn resolve_field(&self, class: &str, off: i32) -> (r: (String, i32))
        ensures
            r.deep_view() == self.deep_view().resolve_field(class@, off),
    {
        let ghost w = self.deep_view();
        let mut cls = class.to_owned();
        let mut at = off;
        let mut n: usize = 64;
        while n > 0
            invariant
                w == self.deep_view(),
                w.resolve_field(class@, off) == w.resolve_within(cls@, at, n as nat),
            decreases n,
        {
            let next = match self.classes.get(&cls) {
                Some(v) => {
                    let bs = v.bases_by_offset();
                    self.find_holding_base(&bs, at)
                },
                None => None,
            };
            match next {
                Some((b, o)) => {
                    cls = b;
                    at = o;
                },
                None => {
                    return (cls, at);
                },
            }
            n -= 1;
        }
        (cls, at)
    }

    fn take_field(&mut self, class: &String, off: i32) -> (r: (Table<i32, FieldStat>, FieldStat))
        ensures
            r.1.deep_view() == old(self).deep_view().field(class@, off),
            forall|f: FieldStatV| #[trigger]
                table::put(r.0.deep_view(), off, f) == table::put(
                    table::list_at(old(self).deep_view().fields, class@),
                    off,
                    f,
                ),
            final(self).deep_view() == (WorldV {
                fields: final(self).deep_view().fields,
                ..old(self).deep_view()
            }),
            forall|t: Seq<(i32, FieldStatV)>| #[trigger]
                table::put(final(self).deep_view().fields, class@, t) == table::put(
                    old(self).deep_view().fields,
                    class@,
                    t,
                ),
    {
        let mut of_class: Table<i32, FieldStat> = match self.fields.take(class) {
            Some(t) => t,
            None => Table::new(),
        };
        let st = match of_class.take(&off) {
            Some(s) => s,
            None => FieldStat::blank(),
        };
        (of_class, st)
    }

    fn is_vptr(&self, class: &String, off: i32) -> (r: bool)
        ensures
            r == self.deep_view().is_vptr(class@, off),
    {
        match self.classes.get(class) {
            Some(v) => v.vptr_offsets.contains(&off),
            None => false,
        }
    }

    fn add_use(&mut self, u: &FieldUse)
        ensures
            final(self).deep_view() == old(self).deep_view().with_use(u.deep_view()),
    {
        let (cls, o) = self.resolve_field(u.class.as_str(), u.off);
        if self.is_vptr(&cls, o) && (u.access.size == 8 || u.access.size == 0) {
            return;
        }
        let (mut of_class, mut st) = self.take_field(&cls, o);
        st.access(u.module, u.func, &u.access, u.ptr);
        of_class.insert(o, st);
        self.fields.insert(cls, of_class);
    }

    fn add_accessor(&mut self, a: &Accessor)
        ensures
            final(self).deep_view() == old(self).deep_view().with_accessor(a.deep_view()),
    {
        let (cls, o) = self.resolve_field(a.class.as_str(), a.off);
        let (mut of_class, mut st) = self.take_field(&cls, o);
        if a.setter {
            st.setters.insert(a.method.clone(), ());
        } else {
            st.getters.insert(a.method.clone(), ());
        }
        of_class.insert(o, st);
        self.fields.insert(cls, of_class);
    }

    /// Collects the fields that the code of all modules touches.
    pub fn build_fields(&mut self)
        ensures
            final(self).deep_view() == old(self).deep_view().fields_built(),
    {
        let ghost w = self.deep_view();
        let mut uses: Vec<FieldUse> = Vec::new();
        let mut accessors: Vec<Accessor> = Vec::new();
        let mut i: usize = 0;
        assert(uses.deep_view() =~= Seq::empty());
        assert(accessors.deep_view() =~= Seq::empty());
        while i < self.modules.len()
            invariant
                w == self.deep_view(),
                i <= self.modules@.len(),
                (Found { uses: uses.deep_view(), accessors: accessors.deep_view() }) == found_in(w.modules, i as int),
            decreases self.modules@.len() - i,
        {
            assert(self.modules@[i as int].deep_view() == w.modules[i as int]);
            look_at_owned(&self.modules[i], i, &mut uses, &mut accessors);
            look_at_fresh(&self.modules[i], i, &mut uses);
            i += 1;
        }
        let ghost us = uses.deep_view();
        i = 0;
        while i < uses.len()
            invariant
                us == uses.deep_view(),
                i <= uses@.len(),
                self.deep_view() == with_uses(w, us, i as int),
            decreases uses@.len() - i,
        {
            assert(uses@[i as int].deep_view() == us[i as int]);
            self.add_use(&uses[i]);
            i += 1;
        }
        let ghost w2 = self.deep_view();
        let ghost ac = accessors.deep_view();
        i = 0;
        while i < accessors.len()
            invariant
                ac == accessors.deep_view(),
                i <= accessors@.len(),
                self.deep_view() == with_accessors(w2, ac, i as int),
            decreases accessors@.len() - i,
        {
            assert(accessors@[i as int].deep_view() == ac[i as int]);
            self.add_accessor(&accessors[i]);
            i += 1;
        }
    }
}

// ---------------------------------------------------------------------------
// Names of vtable slots.

/// Those of the first `n` bases that stand at a subobject.
pub open spec fn bases_at(bases: Seq<BaseClassV>, off: u32, n: int) -> Seq<BaseClassV>
    decreases n,
{
    if n <= 0 {
        Seq::empty()
    } else {
        let s = bases_at(bases, off, n - 1);
        if bases[n - 1].mdisp as u32 == off && bases[n - 1].pdisp == -1 {
            s.push(bases[n - 1])
        } else {
            s
        }
    }
}

pub open spec fn base_depths(bases: Seq<BaseClassV>) -> Seq<u32> {
    Seq::new(bases.len(), |i: int| bases[i].depth)
}

pub open spec fn base_names(bases: Seq<BaseClassV>) -> Seq<Seq<char>> {
    Seq::new(bases.len(), |i: int| bases[i].name)
}

/// Names of a function that are trusted: its aliases, then its name if that is
/// trusted.
pub open spec fn trusted_names(m: ModuleV, rva: u32) -> Seq<Seq<char>> {
    let a = table::keys(table::list_at(m.aliases, rva));
    match table::get(m.names, rva) {
        Some(n) => if n.source.at_least(NameSrc::Export) {
            a.push(n.name)
        } else {
            a
        },
        None => a,
    }
}

/// The best of the first `n` names for a class: one that belongs to the class
/// or an ancestor, the most derived of these, the last of equals.
pub open spec fn best_name(w: WorldV, cands: Seq<Seq<char>>, class: Seq<char>, n: int) -> Option<Seq<char>>
    decreases n,
{
    if n <= 0 {
        None
    } else {
        let b = best_name(w, cands, class, n - 1);
        match names::scope_of(cands[n - 1]) {
            None => b,
            Some(o) => if !w.is_ancestor(o, class) {
                b
            } else {
                match b {
                    Some(x) => if w.base_count(o) >= w.base_count(scope_or_empty(x)) {
                        Some(cands[n - 1])
                    } else {
                        Some(x)
                    },
                    None => Some(cands[n - 1]),
                }
            },
        }
    }
}

pub open spec fn scope_or_empty(name: Seq<char>) -> Seq<char> {
    match names::scope_of(name) {
        Some(o) => o,
        None => Seq::empty(),
    }
}

/// The name that the first module from `i` on has for a slot of a class.
pub open spec fn slot_named(ms: Seq<ModuleV>, class: Seq<char>, slot: usize, i: int) -> Option<Seq<char>>
    decreases ms.len() - i,
{
    if i < 0 || i >= ms.len() {
        None
    } else {
        match table::get(ms[i].slot_names, (class, 0u32, slot)) {
            Some(n) => Some(n),
            None => slot_named(ms, class, slot, i + 1),
        }
    }
}

impl WorldV {
    pub open spec fn is_ancestor(self, anc: Seq<char>, of: Seq<char>) -> bool {
        anc == of || match table::get(self.classes, of) {
            Some(c) => model::lists_base(c.all_bases, anc),
            None => false,
        }
    }

    pub open spec fn base_count(self, c: Seq<char>) -> nat {
        match table::get(self.classes, c) {
            Some(v) => v.all_bases.len(),
            None => 0,
        }
    }

    /// Class chain at a subobject of a class, most-derived first.
    pub open spec fn chain_at(self, class: Seq<char>, off: u32) -> Seq<Seq<char>> {
        match table::get(self.classes, class) {
            None => Seq::empty(),
            Some(v) => {
                let bs = bases_at(v.all_bases, off, v.all_bases.len() as int);
                let own = if off == 0 {
                    seq![class]
                } else {
                    Seq::empty()
                };
                own + base_names(table::sorted_by(base_depths(bs), bs))
            },
        }
    }

    /// Primary vtable (module index, entries) of a class anywhere in the program.
    pub open spec fn primary_vtable(self, class: Seq<char>) -> Option<(usize, Seq<u32>)> {
        match table::get(self.classes, class) {
            None => None,
            Some(v) => match v.module {
                None => None,
                Some(mi) => if mi < self.modules.len() {
                    match self.modules[mi as int].rtti.class(class) {
                        None => None,
                        Some(c) => match c.primary_vtable() {
                            Some(t) => Some((mi, t.entries)),
                            None => None,
                        },
                    }
                } else {
                    None
                },
            },
        }
    }

    pub open spec fn name_for_class(self, m: ModuleV, rva: u32, class: Seq<char>) -> Option<Seq<char>> {
        let cands = trusted_names(m, rva);
        best_name(self, cands, class, cands.len() as int)
    }

    /// The name of what a slot of the primary vtable of a class points to, as
    /// far as the class itself knows it.
    pub open spec fn slot_target_name(self, class: Seq<char>, slot: usize) -> Option<Seq<char>> {
        match self.primary_vtable(class) {
            None => None,
            Some((mi, entries)) => if slot < entries.len() {
                let m = self.modules[mi as int];
                let be = entries[slot as int];
                match self.name_for_class(m, m.resolve_entry(be).0, class) {
                    Some(n) => Some(n),
                    None => match m.entry_import(be) {
                        Some(s) => m.import_name(s),
                        None => None,
                    },
                }
            } else {
                None
            },
        }
    }

    /// The method name of a slot from the first class of a chain, from `i` on,
    /// that knows it.
    pub open spec fn chain_method(self, chain: Seq<Seq<char>>, slot: usize, i: int) -> Option<Seq<char>>
        decreases chain.len() - i,
    {
        if i < 0 || i >= chain.len() {
            None
        } else {
            match slot_named(self.modules, chain[i], slot, 0) {
                Some(n) => names::member_of(n),
                None => match self.slot_target_name(chain[i], slot) {
                    Some(n) => match names::member_of(n) {
                        Some(meth) => Some(meth),
                        None => self.chain_method(chain, slot, i + 1),
                    },
                    None => self.chain_method(chain, slot, i + 1),
                },
            }
        }
    }

    /// The name of a slot that nothing names directly.
    pub open spec fn inferred_slot(self, m: ModuleV, class: Seq<char>, vt_off: u32, slot: usize, target: u32) -> (
        Seq<char>,
        Option<Seq<char>>,
    ) {
        let meth = match self.chain_method(self.chain_at(class, vt_off), slot, 0) {
            Some(x) => x,
            None => "vfunc_"@ + num::dec(slot as int),
        };
        let folded = match table::get(m.names, target) {
            Some(n) => if n.source.at_least(NameSrc::Export) {
                Some(n.name)
            } else {
                None
            },
            None => None,
        };
        let owner = match table::get(m.owner, target) {
            Some(o) => if o.class != class && self.is_ancestor(o.class, class) {
                Some(o.class)
            } else {
                None
            },
            None => None,
        };
        match (owner, folded) {
            (Some(o), _) => (o + "::"@ + meth, Some(o)),
            (None, Some(f)) => (class + "::"@ + meth + " (code shared with "@ + f + ")"@, None),
            (None, None) => (class + "::"@ + meth, None),
        }
    }

    /// The name of a vtable slot and the class it is inherited from.
    pub open spec fn slot_name(self, mi: int, class: Seq<char>, vt_off: u32, slot: usize, entry: u32) -> (
        Seq<char>,
        Option<Seq<char>>,
    ) {
        let m = self.modules[mi];
        let target = m.resolve_entry(entry).0;
        let import = match m.entry_import(entry) {
            Some(s) => Some(s),
            None => m.entry_import(target),
        };
        match table::get(m.slot_names, (class, vt_off, slot)) {
            Some(n) => (n, None),
            None => if table::holds(m.scalar_dtors, target) {
                (class + "::~"@ + names::unqualified_text(class), None)
            } else {
                match import {
                    Some(iat) => {
                        let n = match m.import_name(iat) {
                            Some(n) => n,
                            None => Seq::empty(),
                        };
                        (n, names::scope_of(n))
                    },
                    None => match self.name_for_class(m, target, class) {
                        Some(n) => match names::scope_of(n) {
                            Some(o) => if o != class {
                                (n, Some(o))
                            } else {
                                (n, None)
                            },
                            None => (n, None),
                        },
                        None => self.inferred_slot(m, class, vt_off, slot, target),
                    },
                }
            },
        }
    }
}

fn list_trusted_names(m: &Module, rva: u32) -> (r: Vec<String>)
    ensures
        r.deep_view() == trusted_names(m.deep_view(), rva),
{
    let ghost mv = m.deep_view();
    let mut out: Vec<String> = Vec::new();
    assert(out.deep_view() =~= Seq::empty());
    let ghost all = table::keys(table::list_at(mv.aliases, rva));
    if let Some(a) = m.aliases.get(&rva) {
        let ghost rows = a.deep_view();
        let mut i: usize = 0;
        assert(out.deep_view() =~= all.take(0));
        while i < a.len()
            invariant
                rows == a.deep_view(),
                all == table::keys(rows),
                i <= rows.len(),
                out.deep_view() == all.take(i as int),
            decreases rows.len() - i,
        {
            let ghost before = out.deep_view();
            out.push(a.key_at(i).clone());
            i += 1;
            assert(out.deep_view() =~= before.push(rows[i - 1].0));
            assert(all.take(i as int) =~= before.push(all[i - 1]));
        }
        assert(all.take(i as int) =~= all);
    }
    assert(out.deep_view() =~= all);
    if let Some(n) = m.names.get(&rva) {
        if n.source.reaches(NameSrc::Export) {
            out.push(n.name.clone());
            assert(out.deep_view() =~= all.push(n.name@));
        }
    }
    out
}

/// `class::method`
fn qualified(class: &str, sep: &str, method: &str) -> (r: String)
    ensures
        r@ == class@ + sep@ + method@,
{
    let mut out = String::new();
    out.append(class);
    out.append(sep);
    out.append(method);
    assert(out@ =~= class@ + sep@ + method@);
    out
}

impl World {
    pub fn is_ancestor(&self, anc: &str, of: &str) -> (r: bool)
        ensures
            r == self.deep_view().is_ancestor(anc@, of@),
    {
        if text::same(anc, of) {
            return true;
        }
        match self.classes.get(&of.to_owned()) {
            Some(c) => model::has_base(&c.all_bases, anc),
            None => false,
        }
    }

    fn count_bases(&self, c: &str) -> (r: usize)
        ensures
            r == self.deep_view().base_count(c@),
    {
        match self.classes.get(&c.to_owned()) {
            Some(v) => v.all_bases.len(),
            None => 0,
        }
    }

    /// Class chain at subobject `off` of `class`, most-derived first.
    pub fn chain_at(&self, class: &str, off: u32) -> (r: Vec<String>)
        ensures
            r.deep_view() == self.deep_view().chain_at(class@, off),
    {
        let mut out: Vec<String> = Vec::new();
        assert(out.deep_view() =~= Seq::empty());
        let v = match self.classes.get(&class.to_owned()) {
            Some(v) => v,
            None => {
                return out;
            },
        };
        if off == 0 {
            out.push(class.to_owned());
            assert(out.deep_view() =~= seq![class@]);
        }
        let ghost own = out.deep_view();
        let ghost all = v.all_bases.deep_view();
        let mut list: Vec<BaseClass> = Vec::new();
        let mut keys: Vec<u32> = Vec::new();
        let mut i: usize = 0;
        assert(list.deep_view() =~= Seq::empty());
        while i < v.all_bases.len()
            invariant
                all == v.all_bases.deep_view(),
                i <= v.all_bases@.len(),
                list.deep_view() == bases_at(all, off, i as int),
                keys@ == base_depths(list.deep_view()),
            decreases v.all_bases@.len() - i,
        {
            let b = &v.all_bases[i];
            if b.mdisp as u32 == off && b.pdisp == -1 {
                let ghost before = list.deep_view();
                keys.push(b.depth);
                list.push(b.clone());
                assert(list.deep_view() =~= before.push(all[i as int]));
                assert(keys@ =~= base_depths(list.deep_view()));
            }
            i += 1;
        }
        assert(table::key_models(keys@) =~= keys@);
        let sorted = table::stable_sort(keys, list);
        let ghost sv = sorted.deep_view();
        i = 0;
        assert(own + base_names(sv).take(0) =~= own);
        while i < sorted.len()
            invariant
                sv == sorted.deep_view(),
                i <= sorted@.len(),
                out.deep_view() == own + base_names(sv).take(i as int),
            decreases sorted@.len() - i,
        {
            let ghost before = out.deep_view();
            out.push(sorted[i].name.clone());
            i += 1;
            assert(out.deep_view() =~= before.push(sv[i - 1].name));
            assert(own + base_names(sv).take(i as int) =~= before.push(sv[i - 1].name));
        }
        assert(base_names(sv).take(i as int) =~= base_names(sv));
        out
    }

    /// Primary vtable (module index, entries) of a class anywhere in the program.
    pub fn primary_vtable(&self, class: &str) -> (r: Option<(usize, &Vec<u32>)>)
        ensures
            match r {
                Some((mi, entries)) => self.deep_view().primary_vtable(class@) == Some((mi, entries@)) && mi
                    < self.modules@.len(),
                None => self.deep_view().primary_vtable(class@) is None,
            },
    {
        let mi = match self.classes.get(&class.to_owned()) {
            Some(v) => match v.module {
                Some(mi) => mi,
                None => {
                    return None;
                },
            },
            None => {
                return None;
            },
        };
        if mi >= self.modules.len() {
            return None;
        }
        assert(self.modules@[mi as int].deep_view() == self.deep_view().modules[mi as int]);
        match self.modules[mi].rtti.class(class) {
            Some(c) => match c.primary_vtable() {
                Some(t) => Some((mi, &t.entries)),
                None => None,
            },
            None => None,
        }
    }

    /// Names at `rva` (all folded aliases) that belong to `class` or one of
    /// its ancestors, the most-derived owner preferred.
    pub fn name_for_class(&self, m: &Module, rva: u32, class: &str) -> (r: Option<String>)
        ensures
            r.deep_view() == self.deep_view().name_for_class(m.deep_view(), rva, class@),
    {
        let cands = list_trusted_names(m, rva);
        let ghost w = self.deep_view();
        let ghost cs = cands.deep_view();
        let mut best: Option<usize> = None;
        let mut most: usize = 0;
        let mut i: usize = 0;
        while i < cands.len()
            invariant
                w == self.deep_view(),
                cs == cands.deep_view(),
                i <= cands@.len(),
                match best {
                    Some(b) => b < cands@.len() && best_name(w, cs, class@, i as int) == Some(cs[b as int]) && most
                        == w.base_count(scope_or_empty(cs[b as int])),
                    None => best_name(w, cs, class@, i as int) is None,
                },
            decreases cands@.len() - i,
        {
            if let Some(o) = names::scope_string(cands[i].as_str()) {
                if self.is_ancestor(o.as_str(), class) {
                    let n = self.count_bases(o.as_str());
                    let better = match best {
                        Some(_) => n >= most,
                        None => true,
                    };
                    if better {
                        best = Some(i);
                        most = n;
                    }
                }
            }
            i += 1;
        }
        match best {
            Some(b) => Some(cands[b].clone()),
            None => None,
        }
    }

    fn find_slot_named(&self, class: &str, slot: usize) -> (r: Option<String>)
        ensures
            r.deep_view() == slot_named(self.deep_view().modules, class@, slot, 0),
    {
        let ghost ms = self.deep_view().modules;
        let key = (class.to_owned(), 0u32, slot);
        let mut i: usize = 0;
        while i < self.modules.len()
            invariant
                ms == self.modules.deep_view(),
                i <= self.modules@.len(),
                crate::table::Key::key(&key) == (class@, 0u32, slot),
                slot_named(ms, class@, slot, 0) == slot_named(ms, class@, slot, i as int),
            decreases self.modules@.len() - i,
        {
            assert(self.modules@[i as int].deep_view() == ms[i as int]);
            if let Some(n) = self.modules[i].slot_names.get(&key) {
                return Some(n.clone());
            }
            i += 1;
        }
        None
    }

    fn find_slot_target_name(&self, class: &str, slot: usize) -> (r: Option<String>)
        ensures
            r.deep_view() == self.deep_view().slot_target_name(class@, slot),
    {
        match self.primary_vtable(class) {
            None => None,
            Some((mi, entries)) => {
                if slot >= entries.len() {
                    return None;
                }
                let m = &self.modules[mi];
                assert(m.deep_view() == self.deep_view().modules[mi as int]);
                let be = entries[slot];
                let (bt, _) = m.resolve_entry(be);
                if let Some(n) = self.name_for_class(m, bt, class) {
                    return Some(n);
                }
                match m.entry_import(be) {
                    Some(s) => m.import_name(s),
                    None => None,
                }
            },
        }
    }

    fn find_chain_method(&self, chain: &Vec<String>, slot: usize) -> (r: Option<String>)
        ensures
            r.deep_view() == self.deep_view().chain_method(chain.deep_view(), slot, 0),
    {
        let ghost w = self.deep_view();
        let ghost c = chain.deep_view();
        let mut i: usize = 0;
        while i < chain.len()
            invariant
                w == self.deep_view(),
                c == chain.deep_view(),
                i <= chain@.len(),
                w.chain_method(c, slot, 0) == w.chain_method(c, slot, i as int),
            decreases chain@.len() - i,
        {
            assert(chain@[i as int]@ == c[i as int]);
            if let Some(n) = self.find_slot_named(chain[i].as_str(), slot) {
                return names::member_string(n.as_str());
            }
            if let Some(n) = self.find_slot_target_name(chain[i].as_str(), slot) {
                if let Some(meth) = names::member_string(n.as_str()) {
                    return Some(meth);
                }
            }
            i += 1;
        }
        None
    }

    fn infer_slot(&self, m: &Module, class: &str, vt_off: u32, slot: usize, target: u32) -> (r: (String, Option<String>))
        ensures
            r.deep_view() == self.deep_view().inferred_slot(m.deep_view(), class@, vt_off, slot, target),
    {
        let chain = self.chain_at(class, vt_off);
        let meth = match self.find_chain_method(&chain, slot) {
            Some(x) => x,
            None => {
                let mut x = String::new();
                x.append("vfunc_");
                let d = num::format_dec(slot as u64);
                x.append(d.as_str());
                assert(x@ =~= "vfunc_"@ + num::dec(slot as int));
                x
            },
        };
        let folded = match m.names.get(&target) {
            Some(n) => if n.source.reaches(NameSrc::Export) {
                Some(n.name.clone())
            } else {
                None
            },
            None => None,
        };
        let owner = match m.owner.get(&target) {
            Some(o) => if !text::same(o.class.as_str(), class) && self.is_ancestor(o.class.as_str(), class) {
                Some(o.class.clone())
            } else {
                None
            },
            None => None,
        };
        match (owner, folded) {
            (Some(o), _) => (qualified(o.as_str(), "::", meth.as_str()), Some(o)),
            (None, Some(f)) => {
                let mut n = qualified(class, "::", meth.as_str());
                n.append(" (code shared with ");
                n.append(f.as_str());
                n.append(")");
                assert(n@ =~= class@ + "::"@ + meth@ + " (code shared with "@ + f@ + ")"@);
                (n, None)
            },
            (None, None) => (qualified(class, "::", meth.as_str()), None),
        }
    }

    /// Name every vtable slot using the whole hierarchy (cocos exports,
    /// bindings of base classes, ...). Returns (slot name, inherited-from).
    pub fn slot_name(&self, mi: usize, class: &str, vt_off: u32, slot: usize, entry: u32) -> (r: (
        String,
        Option<String>,
    ))
        requires
            mi < self.modules@.len(),
        ensures
            r.deep_view() == self.deep_view().slot_name(mi as int, class@, vt_off, slot, entry),
    {
        let m = &self.modules[mi];
        assert(m.deep_view() == self.deep_view().modules[mi as int]);
        let (target, _) = m.resolve_entry(entry);
        let key = (class.to_owned(), vt_off, slot);
        assert(crate::table::Key::key(&key) == (class@, vt_off, slot));
        if let Some(n) = m.slot_names.get(&key) {
            return (n.clone(), None);
        }
        if m.scalar_dtors.contains(&target) {
            let short = names::unqualified(class);
            return (qualified(class, "::~", short), None);
        }
        let import = match m.entry_import(entry) {
            Some(s) => Some(s),
            None => m.entry_import(target),
        };
        if let Some(iat) = import {
            let n = match m.import_name(iat) {
                Some(n) => n,
                None => {
                    let e = String::new();
                    assert(e@ =~= Seq::empty());
                    e
                },
            };
            let from = names::scope_string(n.as_str());
            return (n, from);
        }
        if let Some(n) = self.name_for_class(m, target, class) {
            return match names::scope_string(n.as_str()) {
                Some(o) => if !text::same(o.as_str(), class) {
                    (n, Some(o))
                } else {
                    (n, None)
                },
                None => (n, None),
            };
        }
        self.infer_slot(m, class, vt_off, slot, target)
    }
}

// ---------------------------------------------------------------------------
// Laws.

proof fn plain_bases_are(d: Seq<BaseClassV>, n: int, b: BaseClassV)
    requires
        0 <= n <= d.len(),
    ensures
        plain_bases(d, n).len() <= n,
        plain_bases(d, n).contains(b) <==> exists|i: int| 0 <= i < n && #[trigger] d[i] == b && b.pdisp == -1,
    decreases n,
{
    if n > 0 {
        plain_bases_are(d, n - 1, b);
        let s = plain_bases(d, n - 1);
        let t = plain_bases(d, n);
        if d[n - 1].pdisp == -1 {
            assert(t == s.push(d[n - 1]));
            if s.contains(b) {
                let k = choose|k: int| 0 <= k < s.len() && s[k] == b;
                assert(t[k] == b);
            }
            if d[n - 1] == b {
                assert(t[s.len() as int] == b);
            }
            if t.contains(b) {
                let k = choose|k: int| 0 <= k < t.len() && t[k] == b;
                if k < s.len() {
                    assert(s[k] == b);
                }
            }
        }
    }
}

/// The bases of a layout are the direct bases that are not virtual.
proof fn laid_bases_are(c: ClassViewV, b: BaseClassV)
    requires
        c.direct_bases.len() <= usize::MAX,
    ensures
        laid_bases(c).contains(b) <==> c.direct_bases.contains(b) && b.pdisp == -1,
{
    let d = c.direct_bases;
    let p = plain_bases(d, d.len() as int);
    let same = |x: BaseClassV| x;
    plain_bases_are(d, d.len() as int, b);
    table::sorting_keeps_values(base_offsets(p), p, same);
    assert(laid_bases(c).map_values(same) =~= laid_bases(c));
    assert(p.map_values(same) =~= p);
    laid_bases(c).to_multiset_ensures();
    p.to_multiset_ensures();
    assert(laid_bases(c).contains(b) == (laid_bases(c).to_multiset().count(b) > 0));
    assert(p.contains(b) == (p.to_multiset().count(b) > 0));
}

proof fn holding_base_is(w: WorldV, bs: Seq<BaseClassV>, off: i32, i: int)
    requires
        0 <= i,
    ensures
        match holding_base(w, bs, off, i) {
            Some((b, o)) => exists|k: int| 0 <= k < bs.len() && (#[trigger] bs[k]).name == b,
            None => forall|k: int|
                i <= k < bs.len() ==> (base_end(w, bs, k) matches Some(u) ==> !((#[trigger] bs[k]).mdisp <= off && off < u)),
        },
    decreases bs.len() - i,
{
    if i < bs.len() {
        holding_base_is(w, bs, off, i + 1);
        if let Some((b, _)) = holding_base(w, bs, off, i) {
            if holding_base(w, bs, off, i + 1) != holding_base(w, bs, off, i) {
                assert(bs[i].name == b);
            }
        }
    }
}

impl WorldV {
    /// The bases that a class and its bases lay out form no circle, and `n` of
    /// them do not follow one another.
    pub open spec fn shallow(self, class: Seq<char>, n: nat) -> bool
        decreases n,
    {
        match table::get(self.classes, class) {
            None => true,
            Some(v) => n > 0 && forall|i: int|
                0 <= i < v.direct_bases.len() && (#[trigger] v.direct_bases[i]).pdisp == -1 ==> self.shallow(
                    v.direct_bases[i].name,
                    (n - 1) as nat,
                ),
        }
    }

    proof fn resolving_ends(self, class: Seq<char>, off: i32, n: nat)
        requires
            self.shallow(class, n),
            forall|c: Seq<char>| (#[trigger] table::get(self.classes, c)) matches Some(v) ==> v.direct_bases.len() <= usize::MAX,
        ensures
            ({
                let (c, o) = self.resolve_within(class, off, n);
                table::get(self.classes, c) matches Some(v) ==> holding_base(self, laid_bases(v), o, 0) is None
            }),
        decreases n,
    {
        if let Some(v) = table::get(self.classes, class) {
            let bs = laid_bases(v);
            holding_base_is(self, bs, off, 0);
            if let Some((b, o)) = holding_base(self, bs, off, 0) {
                let k = choose|k: int| 0 <= k < bs.len() && (#[trigger] bs[k]).name == b;
                laid_bases_are(v, bs[k]);
                assert(bs.contains(bs[k]));
                let i = choose|i: int| 0 <= i < v.direct_bases.len() && v.direct_bases[i] == bs[k];
                assert(v.direct_bases[i].pdisp == -1);
                self.resolving_ends(b, o, (n - 1) as nat);
            }
        }
    }

    /// Resolving a resolved field changes nothing: no base of known size that
    /// its class lays out holds the offset. A field of an unknown class is
    /// itself. The bases are less than 64 deep and form no circle, and the size
    /// of a base, counted from its offset, is a machine integer.
    pub proof fn resolving_is_done_once(self, class: Seq<char>, off: i32)
        requires
            self.shallow(class, 64),
            forall|c: Seq<char>| (#[trigger] table::get(self.classes, c)) matches Some(v) ==> v.direct_bases.len() <= usize::MAX,
        ensures
            ({
                let (c, o) = self.resolve_field(class, off);
                &&& self.resolve_field(c, o) == (c, o)
                &&& table::get(self.classes, class) is None ==> (c, o) == (class, off)
                &&& table::get(self.classes, c) matches Some(v) ==> forall|i: int|
                    0 <= i < v.direct_bases.len() && (#[trigger] v.direct_bases[i]).pdisp == -1 ==> (self.bound_of(
                        v.direct_bases[i].name,
                    ) matches Some(s) ==> s <= i64::MAX && v.direct_bases[i].mdisp + s <= i64::MAX ==> !(
                    v.direct_bases[i].mdisp <= o < v.direct_bases[i].mdisp + s))
            }),
    {
        let (c, o) = self.resolve_field(class, off);
        self.resolving_ends(class, off, 64);
        if let Some(v) = table::get(self.classes, c) {
            let bs = laid_bases(v);
            holding_base_is(self, bs, o, 0);
            assert forall|i: int| 0 <= i < v.direct_bases.len() && (#[trigger] v.direct_bases[i]).pdisp == -1 implies (
            self.bound_of(v.direct_bases[i].name) matches Some(s) ==> s <= i64::MAX && v.direct_bases[i].mdisp + s <= i64::MAX
                ==> !(v.direct_bases[i].mdisp <= o < v.direct_bases[i].mdisp + s)) by {
                let b = v.direct_bases[i];
                laid_bases_are(v, b);
                assert(v.direct_bases.contains(b));
                let k = choose|k: int| 0 <= k < bs.len() && bs[k] == b;
                assert(bs[k] == b);
            }
        }
    }
}

} // verus!
