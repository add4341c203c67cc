//! Module-level knowledge built from the per-function facts: names, entry
//! points and what is known of the classes of a module.

use vstd::prelude::*;
use vstd::string::StringExecFns;

use crate::analysis;
use crate::analysis::{Code, CodeV, FuncFacts, FuncFactsV, ModuleCode, ModuleCodeV, Target, Trivial};
use crate::names;
use crate::num;
use crate::pe;
use crate::pe::{ExportV, ImportV, Pe, PeV};
use crate::rtti;
use crate::rtti::{BaseClassV, ClassV, Rtti, RttiV};
use crate::table;
use crate::table::{Ordered, Table};
use crate::text;

verus! {

/// Where a name comes from, least trusted first.
#[derive(Clone, Copy, Debug, PartialEq, Eq, PartialOrd, Ord, Hash, Structural)]
pub enum NameSrc {
    Inferred,
    Vtable,
    Import,
    Export,
    Signature,
    Bindings,
    User,
}

impl NameSrc {
    pub open spec fn text(self) -> Seq<char> {
        match self {
            NameSrc::Inferred => "inferred"@,
            NameSrc::Vtable => "vtable"@,
            NameSrc::Import => "import"@,
            NameSrc::Export => "export"@,
            NameSrc::Signature => "signature"@,
            NameSrc::Bindings => "bindings"@,
            NameSrc::User => "user"@,
        }
    }

    pub fn label(self) -> (r: &'static str)
        ensures
            r@ == self.text(),
    {
        match self {
            NameSrc::Inferred => "inferred",
            NameSrc::Vtable => "vtable",
            NameSrc::Import => "import",
            NameSrc::Export => "export",
            NameSrc::Signature => "signature",
            NameSrc::Bindings => "bindings",
            NameSrc::User => "user",
        }
    }

    /// How far a source is trusted.
    pub open spec fn rank(self) -> int {
        match self {
            NameSrc::Inferred => 0,
            NameSrc::Vtable => 1,
            NameSrc::Import => 2,
            NameSrc::Export => 3,
            NameSrc::Signature => 4,
            NameSrc::Bindings => 5,
            NameSrc::User => 6,
        }
    }

    pub fn trust(self) -> (r: u8)
        ensures
            r == self.rank(),
    {
        match self {
            NameSrc::Inferred => 0,
            NameSrc::Vtable => 1,
            NameSrc::Import => 2,
            NameSrc::Export => 3,
            NameSrc::Signature => 4,
            NameSrc::Bindings => 5,
            NameSrc::User => 6,
        }
    }

    /// At least as trusted as `other`.
    pub open spec fn at_least(self, other: NameSrc) -> bool {
        self.rank() >= other.rank()
    }

    pub fn reaches(self, other: NameSrc) -> (r: bool)
        ensures
            r == self.at_least(other),
    {
        self.trust() >= other.trust()
    }
}

#[derive(Debug)]
pub struct Name {
    pub name: String,
    pub source: NameSrc,
    pub is_static: bool,
}

/// Model of a name.
pub ghost struct NameV {
    pub name: Seq<char>,
    pub source: NameSrc,
    pub is_static: bool,
}

impl DeepView for Name {
    type V = NameV;

    open spec fn deep_view(&self) -> NameV {
        NameV { name: self.name@, source: self.source, is_static: self.is_static }
    }
}

/// Why a function is said to belong to a class, least trusted first.
#[derive(Clone, Copy, Debug, PartialEq, Eq, PartialOrd, Ord, Structural)]
pub enum OwnerSrc {
    Propagated,
    Vtable,
    Structor,
    Named,
}

impl OwnerSrc {
    /// How far a source is trusted.
    pub open spec fn rank(self) -> int {
        match self {
            OwnerSrc::Propagated => 0,
            OwnerSrc::Vtable => 1,
            OwnerSrc::Structor => 2,
            OwnerSrc::Named => 3,
        }
    }

    pub fn trust(self) -> (r: u8)
        ensures
            r == self.rank(),
    {
        match self {
            OwnerSrc::Propagated => 0,
            OwnerSrc::Vtable => 1,
            OwnerSrc::Structor => 2,
            OwnerSrc::Named => 3,
        }
    }
}

#[derive(Debug)]
pub struct Owner {
    pub class: String,
    /// Offset of the `this` the function receives inside `class`.
    pub adj: i32,
    pub source: OwnerSrc,
}

/// Model of an owner.
pub ghost struct OwnerV {
    pub class: Seq<char>,
    pub adj: i32,
    pub source: OwnerSrc,
}

impl DeepView for Owner {
    type V = OwnerV;

    open spec fn deep_view(&self) -> OwnerV {
        OwnerV { class: self.class@, adj: self.adj, source: self.source }
    }
}

/// Sizes observed for a class: how often, and by what.
pub type Observed = Table<u64, (usize, &'static str)>;

pub struct SizeInfo {
    pub size: u64,
    pub source: &'static str,
    /// Every distinct size observed, with the number of observations.
    pub observed: Observed,
}

/// Model of the size of a class.
pub ghost struct SizeInfoV {
    pub size: u64,
    pub source: Seq<char>,
    pub observed: Seq<(u64, (usize, Seq<char>))>,
}

impl DeepView for SizeInfo {
    type V = SizeInfoV;

    open spec fn deep_view(&self) -> SizeInfoV {
        SizeInfoV { size: self.size, source: self.source@, observed: self.observed.deep_view() }
    }
}

#[derive(Debug)]
pub struct Singleton {
    pub class: Option<String>,
    pub global: u32,
    pub accessor: u32,
    pub size: u64,
}

/// Model of a singleton.
pub ghost struct SingletonV {
    pub class: Option<Seq<char>>,
    pub global: u32,
    pub accessor: u32,
    pub size: u64,
}

impl DeepView for Singleton {
    type V = SingletonV;

    open spec fn deep_view(&self) -> SingletonV {
        SingletonV {
            class: self.class.deep_view(),
            global: self.global,
            accessor: self.accessor,
            size: self.size,
        }
    }
}

/// A copy of an optional string.
pub fn copy_text(s: &Option<String>) -> (r: Option<String>)
    ensures
        r.deep_view() == s.deep_view(),
{
    match s {
        Some(t) => Some(t.clone()),
        None => None,
    }
}

impl Clone for Singleton {
    fn clone(&self) -> (r: Self)
        ensures
            r.deep_view() == self.deep_view(),
    {
        Singleton {
            class: copy_text(&self.class),
            global: self.global,
            accessor: self.accessor,
            size: self.size,
        }
    }
}

#[derive(Debug)]
pub struct InstanceGlobal {
    pub class: String,
    pub global: u32,
    pub func: u32,
}

/// Model of a global that holds an instance.
pub ghost struct InstanceGlobalV {
    pub class: Seq<char>,
    pub global: u32,
    pub func: u32,
}

impl DeepView for InstanceGlobal {
    type V = InstanceGlobalV;

    open spec fn deep_view(&self) -> InstanceGlobalV {
        InstanceGlobalV { class: self.class@, global: self.global, func: self.func }
    }
}

pub struct Module {
    pub pe: Pe,
    pub rtti: Rtti,
    pub code: ModuleCode,
    pub vtable_set: Table<u32, ()>,
    pub allocators: Vec<(u32, usize)>,
    pub deleters: Vec<(Target, usize)>,
    pub sizes: Table<String, SizeInfo>,
    pub ctors: Table<u32, String>,
    pub dtors: Table<u32, String>,
    pub scalar_dtors: Table<u32, String>,
    pub owner: Table<u32, Owner>,
    pub singletons: Vec<Singleton>,
    pub instance_globals: Vec<InstanceGlobal>,
    pub names: Table<u32, Name>,
    /// Every name ever attached to an address (identical code folding merges functions).
    pub aliases: Table<u32, Table<String, ()>>,
    /// Names for individual vtable slots: (class, subobject offset, index).
    pub slot_names: Table<(String, u32, usize), String>,
    /// Full demangled export signatures by RVA.
    pub export_sigs: Table<u32, String>,
}

/// Model of a module.
pub ghost struct ModuleV {
    pub pe: PeV,
    pub rtti: RttiV,
    pub code: ModuleCodeV,
    pub vtable_set: Seq<(u32, ())>,
    pub allocators: Seq<(u32, usize)>,
    pub deleters: Seq<(Target, usize)>,
    pub sizes: Seq<(Seq<char>, SizeInfoV)>,
    pub ctors: Seq<(u32, Seq<char>)>,
    pub dtors: Seq<(u32, Seq<char>)>,
    pub scalar_dtors: Seq<(u32, Seq<char>)>,
    pub owner: Seq<(u32, OwnerV)>,
    pub singletons: Seq<SingletonV>,
    pub instance_globals: Seq<InstanceGlobalV>,
    pub names: Seq<(u32, NameV)>,
    pub aliases: Seq<(u32, Seq<(Seq<char>, ())>)>,
    pub slot_names: Seq<((Seq<char>, u32, usize), Seq<char>)>,
    pub export_sigs: Seq<(u32, Seq<char>)>,
}

impl DeepView for Module {
    type V = ModuleV;

    open spec fn deep_view(&self) -> ModuleV {
        ModuleV {
            pe: self.pe.deep_view(),
            rtti: self.rtti.deep_view(),
            code: self.code.deep_view(),
            vtable_set: self.vtable_set.deep_view(),
            allocators: self.allocators@,
            deleters: self.deleters@,
            sizes: self.sizes.deep_view(),
            ctors: self.ctors.deep_view(),
            dtors: self.dtors.deep_view(),
            scalar_dtors: self.scalar_dtors.deep_view(),
            owner: self.owner.deep_view(),
            singletons: self.singletons.deep_view(),
            instance_globals: self.instance_globals.deep_view(),
            names: self.names.deep_view(),
            aliases: self.aliases.deep_view(),
            slot_names: self.slot_names.deep_view(),
            export_sigs: self.export_sigs.deep_view(),
        }
    }
}

// ---------------------------------------------------------------------------
// Lookups.

/// A class is `anc` or lists it among its bases.
pub open spec fn lists_base(bases: Seq<BaseClassV>, anc: Seq<char>) -> bool {
    exists|i: int| 0 <= i < bases.len() && (#[trigger] bases[i]).name == anc
}

pub fn has_base(bases: &Vec<rtti::BaseClass>, anc: &str) -> (r: bool)
    ensures
        r == lists_base(bases.deep_view(), anc@),
{
    let ghost bs = bases.deep_view();
    let mut i: usize = 0;
    while i < bases.len()
        invariant
            bs == bases.deep_view(),
            i <= bases@.len(),
            forall|k: int| 0 <= k < i ==> (#[trigger] bs[k]).name != anc@,
        decreases bases@.len() - i,
    {
        if text::same(bases[i].name.as_str(), anc) {
            assert(bs[i as int].name == anc@);
            return true;
        }
        i += 1;
    }
    false
}

impl ModuleV {
    pub open spec fn func(self, rva: u32) -> Option<FuncFactsV> {
        table::get(self.code.funcs, rva)
    }

    /// What the function at an address does, where it is simple.
    pub open spec fn trivial_at(self, rva: u32) -> Option<Trivial> {
        match self.func(rva) {
            Some(f) => f.trivial,
            None => None,
        }
    }

    /// Final target and `this` delta over at most `n` stubs and thunks.
    pub open spec fn resolve_within(self, rva: u32, delta: i32, n: nat) -> (u32, i32)
        decreases n,
    {
        if n == 0 {
            (rva, delta)
        } else {
            match self.trivial_at(rva) {
                Some(Trivial::Jump(Target::Direct(t))) => self.resolve_within(t, delta, (n - 1) as nat),
                Some(Trivial::AdjustThunk { delta: d, target }) => self.resolve_within(
                    target,
                    delta.wrapping_add(d),
                    (n - 1) as nat,
                ),
                _ => (rva, delta),
            }
        }
    }

    pub open spec fn resolve_entry(self, rva: u32) -> (u32, i32) {
        self.resolve_within(rva, 0, 4)
    }

    /// The name of the import in a slot of the import table.
    pub open spec fn import_name(self, iat: u32) -> Option<Seq<char>> {
        match self.pe.import_at_iat(iat) {
            None => None,
            Some(imp) => Some(import_text(imp)),
        }
    }

    /// The import slot that an entry ultimately jumps through.
    pub open spec fn entry_import(self, rva: u32) -> Option<u32> {
        match table::get(self.code.thunks, rva) {
            Some(s) => Some(s),
            None => match self.trivial_at(rva) {
                Some(Trivial::Jump(Target::Import(s))) => Some(s),
                _ => None,
            },
        }
    }

    /// The class of a vtable and the offset of its subobject.
    pub open spec fn class_of_vtable(self, vt: u32) -> Option<(Seq<char>, u32)> {
        match table::get(self.rtti.vtable_owner, vt) {
            None => None,
            Some((name, idx)) => match self.rtti.class(name) {
                None => None,
                Some(c) => if idx < c.vtables.len() {
                    Some((name, c.vtables[idx as int].offset))
                } else {
                    None
                },
            },
        }
    }

    /// The class whose primary vtable is at `vt`.
    pub open spec fn primary_class(self, vt: u32) -> Option<Seq<char>> {
        match self.class_of_vtable(vt) {
            Some((name, off)) => if off == 0 {
                Some(name)
            } else {
                None
            },
            None => None,
        }
    }

    pub open spec fn is_ancestor(self, anc: Seq<char>, of: Seq<char>) -> bool {
        anc == of || match self.rtti.class(of) {
            Some(c) => lists_base(c.all_bases, anc),
            None => false,
        }
    }

    /// How many bases a class has, 0 for unknown classes.
    pub open spec fn base_count(self, name: Seq<char>) -> nat {
        match self.rtti.class(name) {
            Some(c) => c.all_bases.len(),
            None => 0,
        }
    }

    /// The module with a name for an address. A name yields to one from a more
    /// trusted source; of names from one source the first in order stays.
    pub open spec fn with_name(self, rva: u32, name: Seq<char>, source: NameSrc, is_static: bool) -> ModuleV {
        ModuleV {
            aliases: if source.at_least(NameSrc::Export) {
                table::with_member(self.aliases, rva, name)
            } else {
                self.aliases
            },
            names: if keeps_name(table::get(self.names, rva), name, source) {
                self.names
            } else {
                table::put(self.names, rva, NameV { name, source, is_static })
            },
            ..self
        }
    }
}

/// An address keeps the name it has when another is offered.
pub open spec fn keeps_name(old_name: Option<NameV>, name: Seq<char>, source: NameSrc) -> bool {
    match old_name {
        Some(n) => n.source.rank() > source.rank() || (n.source == source && !name.before(n.name)),
        None => false,
    }
}

/// The name of an import: its function, or its library and ordinal.
pub open spec fn import_text(imp: ImportV) -> Seq<char> {
    match imp.name {
        Some(n) => names::short_text(n),
        None => imp.dll + "#"@ + num::dec(
            match imp.ordinal {
                Some(o) => o as int,
                None => 0,
            },
        ),
    }
}

impl Module {
    pub fn func(&self, rva: u32) -> (r: Option<&FuncFacts>)
        ensures
            r.deep_view() == self.deep_view().func(rva),
    {
        self.code.funcs.get(&rva)
    }

    fn trivial(&self, rva: u32) -> (r: Option<Trivial>)
        ensures
            r == self.deep_view().trivial_at(rva),
    {
        match self.func(rva) {
            Some(f) => f.trivial,
            None => None,
        }
    }

    /// Follow jump stubs and this-adjusting thunks: (final target, this delta).
    pub fn resolve_entry(&self, rva: u32) -> (r: (u32, i32))
        ensures
            r == self.deep_view().resolve_entry(rva),
    {
        let mut at = rva;
        let mut delta: i32 = 0;
        let mut n: usize = 4;
        while n > 0
            invariant
                self.deep_view().resolve_entry(rva) == self.deep_view().resolve_within(at, delta, n as nat),
            decreases n,
        {
            match self.trivial(at) {
                Some(Trivial::Jump(Target::Direct(t))) => {
                    at = t;
                },
                Some(Trivial::AdjustThunk { delta: d, target }) => {
                    delta = delta.wrapping_add(d);
                    at = target;
                },
                _ => {
                    return (at, delta);
                },
            }
            n -= 1;
        }
        (at, delta)
    }

    pub fn import_name(&self, iat: u32) -> (r: Option<String>)
        ensures
            r.deep_view() == self.deep_view().import_name(iat),
    {
        match self.pe.import_at_iat(iat) {
            None => None,
            Some(imp) => match &imp.name {
                Some(n) => Some(names::short_function_name(n.as_str())),
                None => {
                    let mut out = String::new();
                    out.append(imp.dll.as_str());
                    out.append("#");
                    let ord: u64 = match imp.ordinal {
                        Some(o) => o as u64,
                        None => 0,
                    };
                    let d = num::format_dec(ord);
                    out.append(d.as_str());
                    assert(out@ =~= import_text(imp.deep_view()));
                    Some(out)
                },
            },
        }
    }

    /// Name of what a vtable/call entry ultimately points to, if it is an import.
    pub fn entry_import(&self, rva: u32) -> (r: Option<u32>)
        ensures
            r == self.deep_view().entry_import(rva),
    {
        if let Some(s) = self.code.thunks.get(&rva) {
            return Some(*s);
        }
        match self.trivial(rva) {
            Some(Trivial::Jump(Target::Import(s))) => Some(s),
            _ => None,
        }
    }

    pub fn class_of_vtable(&self, vt: u32) -> (r: Option<(&str, u32)>)
        ensures
            r.deep_view() == self.deep_view().class_of_vtable(vt),
    {
        match self.rtti.vtable_owner.get(&vt) {
            None => None,
            Some(o) => match self.rtti.class(o.0.as_str()) {
                None => None,
                Some(c) => if o.1 < c.vtables.len() {
                    assert(c.deep_view().vtables[o.1 as int] == c.vtables@[o.1 as int].deep_view());
                    Some((o.0.as_str(), c.vtables[o.1].offset))
                } else {
                    None
                },
            },
        }
    }

    pub(crate) fn primary_class(&self, vt: u32) -> (r: Option<String>)
        ensures
            r.deep_view() == self.deep_view().primary_class(vt),
    {
        match self.class_of_vtable(vt) {
            Some((name, off)) => if off == 0 {
                Some(name.to_owned())
            } else {
                None
            },
            None => None,
        }
    }

    pub fn is_ancestor(&self, anc: &str, of: &str) -> (r: bool)
        ensures
            r == self.deep_view().is_ancestor(anc@, of@),
    {
        if text::same(anc, of) {
            return true;
        }
        match self.rtti.class(of) {
            Some(c) => has_base(&c.all_bases, anc),
            None => false,
        }
    }

    pub(crate) fn base_count(&self, name: &str) -> (r: usize)
        ensures
            r == self.deep_view().base_count(name@),
    {
        match self.rtti.class(name) {
            Some(c) => c.all_bases.len(),
            None => 0,
        }
    }

    pub fn set_name(&mut self, rva: u32, name: String, source: NameSrc, is_static: bool)
        ensures
            final(self).deep_view() == old(self).deep_view().with_name(rva, name@, source, is_static),
    {
        if source.reaches(NameSrc::Export) {
            table::add_member(&mut self.aliases, rva, name.clone());
        }
        let keep = match self.names.get(&rva) {
            Some(n) => n.source.trust() > source.trust() || (n.source == source && !table::string_before(
                name.as_str(),
                n.name.as_str(),
            )),
            None => false,
        };
        if !keep {
            self.names.insert(rva, Name { name, source, is_static });
        }
    }
}

/// A name is only ever replaced by one from a source that is trusted as much.
pub proof fn names_gain_trust(m: ModuleV, rva: u32, name: Seq<char>, source: NameSrc, is_static: bool, at: u32)
    requires
        table::ordered(m.names),
    ensures
        table::get(m.names, at) matches Some(n) ==> table::get(m.with_name(rva, name, source, is_static).names, at) matches Some(
            k,
        ) && k.source.at_least(n.source),
{
    table::get_after_put(m.names, rva, NameV { name, source, is_static }, at);
}

/// After a name is offered for an address, the address has a name from a
/// source trusted at least as much.
pub proof fn offered_names_hold(m: ModuleV, rva: u32, name: Seq<char>, source: NameSrc, is_static: bool)
    requires
        table::ordered(m.names),
    ensures
        table::get(m.with_name(rva, name, source, is_static).names, rva) matches Some(k) && k.source.at_least(source),
{
    table::get_after_put(m.names, rva, NameV { name, source, is_static }, rva);
}

/// Which name an address ends up with does not depend on the order in which
/// names are offered, unless the same name comes from the same source once for
/// a static function and once not.
pub proof fn names_commute(m: ModuleV, rva: u32, a: NameV, b: NameV, at: u32)
    requires
        table::ordered(m.names),
        a.name == b.name && a.source == b.source ==> a.is_static == b.is_static,
    ensures
        table::get(
            m.with_name(rva, a.name, a.source, a.is_static).with_name(rva, b.name, b.source, b.is_static).names,
            at,
        ) == table::get(
            m.with_name(rva, b.name, b.source, b.is_static).with_name(rva, a.name, a.source, a.is_static).names,
            at,
        ),
{
    let ma = m.with_name(rva, a.name, a.source, a.is_static);
    let mb = m.with_name(rva, b.name, b.source, b.is_static);
    table::get_after_put(m.names, rva, a, at);
    table::get_after_put(m.names, rva, b, at);
    table::get_after_put(m.names, rva, a, rva);
    table::get_after_put(m.names, rva, b, rva);
    table::get_after_put(ma.names, rva, b, at);
    table::get_after_put(mb.names, rva, a, at);
    Seq::<char>::total(a.name, b.name);
    Seq::<char>::irreflexive(a.name);
    if a.name.before(b.name) && b.name.before(a.name) {
        Seq::<char>::transitive(a.name, b.name, a.name);
    }
    if let Some(n) = table::get(m.names, rva) {
        Seq::<char>::total(a.name, n.name);
        Seq::<char>::total(b.name, n.name);
        if a.name.before(b.name) && b.name.before(n.name) {
            Seq::<char>::transitive(a.name, b.name, n.name);
        }
        if b.name.before(a.name) && a.name.before(n.name) {
            Seq::<char>::transitive(b.name, a.name, n.name);
        }
    }
}

// ---------------------------------------------------------------------------
// More functions.

/// Those of the first `n` addresses that are code and not analysed yet.
pub open spec fn unknown_code(m: ModuleV, rvas: Seq<u32>, n: int) -> Seq<u32>
    decreases n,
{
    if n <= 0 {
        Seq::empty()
    } else {
        let s = unknown_code(m, rvas, n - 1);
        if m.pe.is_exec(rvas[n - 1]) && !table::holds(m.code.funcs, rvas[n - 1]) {
            s.push(rvas[n - 1])
        } else {
            s
        }
    }
}

/// The code of a module once the functions at `fresh` are known starts.
pub open spec fn code_with(m: ModuleV, fresh: Seq<u32>) -> CodeV {
    let known = table::keys(m.code.funcs);
    let starts = analysis::with_all(Seq::empty(), known, known.len() as int);
    CodeV {
        pe: m.pe,
        vtables: m.vtable_set,
        starts: analysis::with_all(starts, fresh, fresh.len() as int),
        pdata_end: analysis::table_ends(m.pe.runtime_functions, m.pe.runtime_functions.len() as int),
    }
}

/// The analysis with the first `n` of the functions at `fresh`.
pub open spec fn code_added(mc: ModuleCodeV, c: CodeV, fresh: Seq<u32>, n: int) -> ModuleCodeV
    decreases n,
{
    if n <= 0 {
        mc
    } else {
        let s = code_added(mc, c, fresh, n - 1);
        let f = c.analyze(fresh[n - 1]);
        ModuleCodeV {
            funcs: table::put(s.funcs, f.start, f),
            thunks: match c.import_thunk(f.start) {
                Some(slot) => table::put(s.thunks, f.start, slot),
                None => s.thunks,
            },
        }
    }
}

impl ModuleV {
    /// The module with those of the addresses analysed that are code.
    pub open spec fn with_functions(self, rvas: Seq<u32>) -> ModuleV {
        let fresh = unknown_code(self, rvas, rvas.len() as int);
        if fresh.len() == 0 {
            self
        } else {
            ModuleV { code: code_added(self.code, code_with(self, fresh), fresh, fresh.len() as int), ..self }
        }
    }
}

pub(crate) fn insert_all(t: &mut Table<u32, ()>, rvas: &Vec<u32>)
    ensures
        final(t).deep_view() == analysis::with_all(old(t).deep_view(), rvas@, rvas@.len() as int),
{
    let ghost before = t.deep_view();
    let mut i: usize = 0;
    while i < rvas.len()
        invariant
            before == old(t).deep_view(),
            i <= rvas@.len(),
            t.deep_view() == analysis::with_all(before, rvas@, i as int),
        decreases rvas@.len() - i,
    {
        t.insert(rvas[i], ());
        i += 1;
    }
}

impl Module {
    fn fresh_code(&self, rvas: &Vec<u32>) -> (r: Vec<u32>)
        ensures
            r@ == unknown_code(self.deep_view(), rvas@, rvas@.len() as int),
    {
        let mut out: Vec<u32> = Vec::new();
        let mut i: usize = 0;
        while i < rvas.len()
            invariant
                i <= rvas@.len(),
                out@ == unknown_code(self.deep_view(), rvas@, i as int),
            decreases rvas@.len() - i,
        {
            if self.pe.is_exec(rvas[i]) && !self.code.funcs.contains(&rvas[i]) {
                out.push(rvas[i]);
            }
            i += 1;
        }
        out
    }

    /// Analyse extra entry points (e.g. from bindings) the sweep did not reach.
    pub fn add_functions(&mut self, rvas: &Vec<u32>) -> (r: usize)
        ensures
            r == unknown_code(old(self).deep_view(), rvas@, rvas@.len() as int).len(),
            final(self).deep_view() == old(self).deep_view().with_functions(rvas@),
    {
        let fresh = self.fresh_code(rvas);
        if fresh.len() == 0 {
            return 0;
        }
        let ghost m = self.deep_view();
        let mut starts: Table<u32, ()> = Table::new();
        let known = analysis::keys_of(&self.code.funcs);
        insert_all(&mut starts, &known);
        insert_all(&mut starts, &fresh);
        let pdata_end = analysis::ends_of(&self.pe);
        let ghost c = code_with(m, fresh@);
        let mut i: usize = 0;
        while i < fresh.len()
            invariant
                i <= fresh@.len(),
                starts.deep_view() == c.starts,
                pdata_end.deep_view() == c.pdata_end,
                self.deep_view() == (ModuleV { code: code_added(m.code, c, fresh@, i as int), ..m }),
                c.pe == m.pe,
                c.vtables == m.vtable_set,
            decreases fresh@.len() - i,
        {
            let (f, slot) = {
                let code = Code { pe: &self.pe, vtables: &self.vtable_set, starts: &starts, pdata_end: &pdata_end };
                assert(code.deep_view() == c);
                let f = code.analyze(fresh[i]);
                let slot = code.import_thunk(f.start);
                (f, slot)
            };
            let start = f.start;
            if let Some(s) = slot {
                self.code.thunks.insert(start, s);
            }
            self.code.funcs.insert(start, f);
            i += 1;
        }
        fresh.len()
    }
}

// ---------------------------------------------------------------------------
// Loading.

/// The module with the name of an export, if it is code here.
pub open spec fn export_named(m: ModuleV, e: ExportV) -> ModuleV {
    match e.name {
        None => m,
        Some(raw) => if e.forwarder is Some {
            m
        } else {
            let full = names::demangle_text(raw);
            let m = ModuleV { export_sigs: table::put_new(m.export_sigs, e.rva, full), ..m };
            if m.pe.is_exec(e.rva) {
                m.with_name(e.rva, names::short_text(raw), NameSrc::Export, text::includes(full, "static "@))
            } else {
                m
            }
        },
    }
}

/// The module with the names of its first `n` exports.
pub open spec fn exports_named(m: ModuleV, n: int) -> ModuleV
    decreases n,
{
    if n <= 0 {
        m
    } else {
        export_named(exports_named(m, n - 1), m.pe.exports[n - 1])
    }
}

/// The module with names for its first `n` import thunks.
pub open spec fn thunks_named(m: ModuleV, n: int) -> ModuleV
    decreases n,
{
    if n <= 0 {
        m
    } else {
        let s = thunks_named(m, n - 1);
        let (t, iat) = m.code.thunks[n - 1];
        match m.import_name(iat) {
            Some(name) => s.with_name(t, name + " (thunk)"@, NameSrc::Import, false),
            None => s,
        }
    }
}

impl ModuleV {
    pub open spec fn exports_imports_named(self) -> ModuleV {
        let m = exports_named(self, self.pe.exports.len() as int);
        thunks_named(m, m.code.thunks.len() as int)
    }
}

proof fn naming_keeps(m: ModuleV, n: int)
    ensures
        exports_named(m, n).pe == m.pe,
        exports_named(m, n).code == m.code,
        thunks_named(m, n).pe == m.pe,
        thunks_named(m, n).code == m.code,
    decreases n,
{
    if n > 0 {
        naming_keeps(m, n - 1);
    }
}

impl Module {
    fn name_export(&mut self, i: usize)
        requires
            i < old(self).pe.exports@.len(),
        ensures
            final(self).deep_view() == export_named(
                old(self).deep_view(),
                old(self).deep_view().pe.exports[i as int],
            ),
    {
        let e = &self.pe.exports[i];
        let rva = e.rva;
        let raw = match &e.name {
            Some(n) => n.clone(),
            None => {
                return;
            },
        };
        if e.forwarder.is_some() {
            return;
        }
        let full = names::demangle(raw.as_str());
        let is_static = text::contains(full.as_str(), "static ");
        if !self.export_sigs.contains(&rva) {
            self.export_sigs.insert(rva, full);
        }
        if self.pe.is_exec(rva) {
            let short = names::short_function_name(raw.as_str());
            self.set_name(rva, short, NameSrc::Export, is_static);
        }
    }

    pub(crate) fn name_exports_imports(&mut self)
        ensures
            final(self).deep_view() == old(self).deep_view().exports_imports_named(),
    {
        let ghost m = self.deep_view();
        let n = self.pe.exports.len();
        let mut i: usize = 0;
        while i < n
            invariant
                i <= n,
                n == m.pe.exports.len(),
                self.deep_view() == exports_named(m, i as int),
            decreases n - i,
        {
            proof {
                naming_keeps(m, i as int);
                assert(self.pe.exports.deep_view().len() == self.pe.exports@.len());
            }
            self.name_export(i);
            i += 1;
        }
        let ghost named = self.deep_view();
        proof {
            naming_keeps(m, n as int);
        }
        let n = self.code.thunks.len();
        i = 0;
        while i < n
            invariant
                i <= n,
                n == named.code.thunks.len(),
                self.deep_view() == thunks_named(named, i as int),
            decreases n - i,
        {
            proof {
                naming_keeps(named, i as int);
            }
            let t = *self.code.thunks.key_at(i);
            let iat = *self.code.thunks.value_at(i);
            if let Some(name) = self.import_name(iat) {
                let mut full = String::new();
                full.append(name.as_str());
                full.append(" (thunk)");
                assert(full@ =~= name@ + " (thunk)"@);
                self.set_name(t, full, NameSrc::Import, false);
            }
            i += 1;
        }
    }
}

/// All entries of the first `n` vtables.
pub open spec fn entries_of(vs: Seq<rtti::VtableV>, n: int) -> Seq<u32>
    decreases n,
{
    if n <= 0 {
        Seq::empty()
    } else {
        entries_of(vs, n - 1) + vs[n - 1].entries
    }
}

/// All vtable entries of the first `n` classes.
pub open spec fn class_entries(cs: Seq<(Seq<char>, ClassV)>, n: int) -> Seq<u32>
    decreases n,
{
    if n <= 0 {
        Seq::empty()
    } else {
        class_entries(cs, n - 1) + entries_of(cs[n - 1].1.vtables, cs[n - 1].1.vtables.len() as int)
    }
}

fn append_words(out: &mut Vec<u32>, more: &Vec<u32>)
    ensures
        final(out)@ == old(out)@ + more@,
{
    let ghost before = out@;
    let mut i: usize = 0;
    assert(before + more@.take(0) =~= before);
    while i < more.len()
        invariant
            before == old(out)@,
            i <= more@.len(),
            out@ == before + more@.take(i as int),
        decreases more@.len() - i,
    {
        out.push(more[i]);
        i += 1;
        assert(before + more@.take(i as int) =~= (before + more@.take(i - 1)).push(more@[i - 1]));
    }
    assert(more@.take(i as int) =~= more@);
}

fn all_entries(r: &Rtti) -> (out: Vec<u32>)
    ensures
        out@ == class_entries(r.deep_view().classes, r.deep_view().classes.len() as int),
{
    let ghost cs = r.deep_view().classes;
    let mut out: Vec<u32> = Vec::new();
    let mut i: usize = 0;
    while i < r.classes.len()
        invariant
            cs == r.classes.deep_view(),
            i <= cs.len(),
            out@ == class_entries(cs, i as int),
        decreases cs.len() - i,
    {
        let c = r.classes.value_at(i);
        let ghost vs = c.deep_view().vtables;
        let ghost before = out@;
        let mut k: usize = 0;
        assert(before + entries_of(vs, 0) =~= before);
        while k < c.vtables.len()
            invariant
                vs == c.vtables.deep_view(),
                k <= c.vtables@.len(),
                out@ == before + entries_of(vs, k as int),
            decreases c.vtables@.len() - k,
        {
            append_words(&mut out, &c.vtables[k].entries);
            proof {
                let e = vs[k as int].entries;
                assert((before + entries_of(vs, k as int)) + e =~= before + (entries_of(vs, k as int) + e));
            }
            k += 1;
        }
        i += 1;
    }
    out
}

impl ModuleV {
    /// A module of which only the image, the classes and the code are known.
    pub open spec fn bare(pe: PeV) -> ModuleV {
        let r = rtti::scanned(pe);
        let vts = table::keys(r.vtable_owner);
        let vtable_set = analysis::with_all(Seq::empty(), vts, vts.len() as int);
        ModuleV {
            pe,
            rtti: r,
            code: analysis::module_code(pe, vtable_set, class_entries(r.classes, r.classes.len() as int)),
            vtable_set,
            allocators: Seq::empty(),
            deleters: Seq::empty(),
            sizes: Seq::empty(),
            ctors: Seq::empty(),
            dtors: Seq::empty(),
            scalar_dtors: Seq::empty(),
            owner: Seq::empty(),
            singletons: Seq::empty(),
            instance_globals: Seq::empty(),
            names: Seq::empty(),
            aliases: Seq::empty(),
            slot_names: Seq::empty(),
            export_sigs: Seq::empty(),
        }
    }
}

impl Module {
    /// A module of which only the image, the classes and the code are known.
    pub fn bare(pe: Pe) -> (r: Module)
        ensures
            r.deep_view() == ModuleV::bare(pe.deep_view()),
    {
        let found = rtti::scan(&pe);
        let mut vtable_set: Table<u32, ()> = Table::new();
        let vts = analysis::keys_of(&found.vtable_owner);
        insert_all(&mut vtable_set, &vts);
        let extra = all_entries(&found);
        let code = analysis::analyze_module(&pe, &vtable_set, &extra);
        let singletons: Vec<Singleton> = Vec::new();
        assert(singletons.deep_view() =~= Seq::empty());
        let instance_globals: Vec<InstanceGlobal> = Vec::new();
        assert(instance_globals.deep_view() =~= Seq::empty());
        Module {
            pe,
            rtti: found,
            code,
            vtable_set,
            allocators: Vec::new(),
            deleters: Vec::new(),
            sizes: Table::new(),
            ctors: Table::new(),
            dtors: Table::new(),
            scalar_dtors: Table::new(),
            owner: Table::new(),
            singletons,
            instance_globals,
            names: Table::new(),
            aliases: Table::new(),
            slot_names: Table::new(),
            export_sigs: Table::new(),
        }
    }
}

} // verus!
