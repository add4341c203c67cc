//! MSVC x64 RTTI recovery: type descriptors, complete object locators,
//! class hierarchy descriptors and the vtables that reference them.

use vstd::prelude::*;
use vstd::string::StringExecFns;

use crate::names;
use crate::num;
use crate::pe;
use crate::pe::{Pe, PeV};
use crate::search;
use crate::table;
use crate::table::{Ordered, Table};
use crate::text;

verus! {

#[derive(Debug)]
pub struct BaseClass {
    pub name: String,
    /// Offset of the base subobject inside the derived object (PMD.mdisp).
    pub mdisp: i32,
    pub pdisp: i32,
    pub vdisp: i32,
    pub attributes: u32,
    /// Number of bases nested under this entry in the flattened array.
    pub contained: u32,
    pub depth: u32,
}

/// Model of a base class.
pub ghost struct BaseClassV {
    pub name: Seq<char>,
    pub mdisp: i32,
    pub pdisp: i32,
    pub vdisp: i32,
    pub attributes: u32,
    pub contained: u32,
    pub depth: u32,
}

impl DeepView for BaseClass {
    type V = BaseClassV;

    open spec fn deep_view(&self) -> BaseClassV {
        BaseClassV {
            name: self.name@,
            mdisp: self.mdisp,
            pdisp: self.pdisp,
            vdisp: self.vdisp,
            attributes: self.attributes,
            contained: self.contained,
            depth: self.depth,
        }
    }
}

impl Clone for BaseClass {
    fn clone(&self) -> (r: Self)
        ensures
            r.deep_view() == self.deep_view(),
    {
        BaseClass {
            name: self.name.clone(),
            mdisp: self.mdisp,
            pdisp: self.pdisp,
            vdisp: self.vdisp,
            attributes: self.attributes,
            contained: self.contained,
            depth: self.depth,
        }
    }
}

#[derive(Debug)]
pub struct Vtable {
    pub rva: u32,
    pub col_rva: u32,
    /// Offset of the subobject this vtable belongs to (COL.offset).
    pub offset: u32,
    pub cd_offset: u32,
    pub entries: Vec<u32>,
}

/// Model of a vtable.
pub ghost struct VtableV {
    pub rva: u32,
    pub col_rva: u32,
    pub offset: u32,
    pub cd_offset: u32,
    pub entries: Seq<u32>,
}

impl DeepView for Vtable {
    type V = VtableV;

    open spec fn deep_view(&self) -> VtableV {
        VtableV {
            rva: self.rva,
            col_rva: self.col_rva,
            offset: self.offset,
            cd_offset: self.cd_offset,
            entries: self.entries@,
        }
    }
}

impl Clone for Vtable {
    fn clone(&self) -> (r: Self)
        ensures
            r.deep_view() == self.deep_view(),
    {
        let entries = self.entries.clone();
        assert(entries@ =~= self.entries@);
        Vtable { rva: self.rva, col_rva: self.col_rva, offset: self.offset, cd_offset: self.cd_offset, entries }
    }
}

#[derive(Debug)]
pub struct Class {
    pub name: String,
    pub mangled: String,
    pub td_rva: u32,
    pub chd_rva: Option<u32>,
    pub chd_attributes: u32,
    /// Flattened base class array, excluding the class itself.
    pub all_bases: Vec<BaseClass>,
    /// Direct bases in declaration order.
    pub direct_bases: Vec<BaseClass>,
    pub vtables: Vec<Vtable>,
}

/// Model of a class.
pub ghost struct ClassV {
    pub name: Seq<char>,
    pub mangled: Seq<char>,
    pub td_rva: u32,
    pub chd_rva: Option<u32>,
    pub chd_attributes: u32,
    pub all_bases: Seq<BaseClassV>,
    pub direct_bases: Seq<BaseClassV>,
    pub vtables: Seq<VtableV>,
}

impl DeepView for Class {
    type V = ClassV;

    open spec fn deep_view(&self) -> ClassV {
        ClassV {
            name: self.name@,
            mangled: self.mangled@,
            td_rva: self.td_rva,
            chd_rva: self.chd_rva,
            chd_attributes: self.chd_attributes,
            all_bases: self.all_bases.deep_view(),
            direct_bases: self.direct_bases.deep_view(),
            vtables: self.vtables.deep_view(),
        }
    }
}

/// Copies of base classes.
pub fn copy_bases(v: &Vec<BaseClass>) -> (r: Vec<BaseClass>)
    ensures
        r.deep_view() == v.deep_view(),
{
    let r = v.clone();
    assert(r.deep_view() =~= v.deep_view());
    r
}

impl Clone for Class {
    fn clone(&self) -> (r: Self)
        ensures
            r.deep_view() == self.deep_view(),
    {
        let vtables = self.vtables.clone();
        assert(vtables.deep_view() =~= self.vtables.deep_view());
        Class {
            name: self.name.clone(),
            mangled: self.mangled.clone(),
            td_rva: self.td_rva,
            chd_rva: self.chd_rva,
            chd_attributes: self.chd_attributes,
            all_bases: copy_bases(&self.all_bases),
            direct_bases: copy_bases(&self.direct_bases),
            vtables,
        }
    }
}

/// The first vtable from `i` on that belongs to the subobject at `offset`.
pub open spec fn vtable_from(vs: Seq<VtableV>, offset: u32, i: int) -> Option<VtableV>
    decreases vs.len() - i,
{
    if i < 0 || i >= vs.len() {
        None
    } else if vs[i].offset == offset {
        Some(vs[i])
    } else {
        vtable_from(vs, offset, i + 1)
    }
}

/// A base at the start of the object that is not a virtual base.
pub open spec fn is_primary(b: BaseClassV) -> bool {
    b.mdisp == 0 && b.vdisp == 0 && b.pdisp == -1
}

/// The first base from `i` on at the start of the object.
pub open spec fn primary_from(bs: Seq<BaseClassV>, i: int) -> Option<BaseClassV>
    decreases bs.len() - i,
{
    if i < 0 || i >= bs.len() {
        None
    } else if is_primary(bs[i]) {
        Some(bs[i])
    } else {
        primary_from(bs, i + 1)
    }
}

impl ClassV {
    pub open spec fn vtable_at(self, offset: u32) -> Option<VtableV> {
        vtable_from(self.vtables, offset, 0)
    }

    pub open spec fn primary_vtable(self) -> Option<VtableV> {
        self.vtable_at(0)
    }

    pub open spec fn primary_base(self) -> Option<BaseClassV> {
        primary_from(self.direct_bases, 0)
    }
}

impl Class {
    /// The vtable of the subobject at `offset`.
    pub fn vtable_at(&self, offset: u32) -> (r: Option<&Vtable>)
        ensures
            r.deep_view() == self.deep_view().vtable_at(offset),
    {
        let mut i: usize = 0;
        while i < self.vtables.len()
            invariant
                i <= self.vtables@.len(),
                self.deep_view().vtable_at(offset) == vtable_from(self.vtables.deep_view(), offset, i as int),
            decreases self.vtables@.len() - i,
        {
            if self.vtables[i].offset == offset {
                return Some(&self.vtables[i]);
            }
            i += 1;
        }
        None
    }

    pub fn primary_vtable(&self) -> (r: Option<&Vtable>)
        ensures
            r.deep_view() == self.deep_view().primary_vtable(),
    {
        self.vtable_at(0)
    }

    pub fn primary_base(&self) -> (r: Option<&BaseClass>)
        ensures
            r.deep_view() == self.deep_view().primary_base(),
    {
        let mut i: usize = 0;
        while i < self.direct_bases.len()
            invariant
                i <= self.direct_bases@.len(),
                self.deep_view().primary_base() == primary_from(self.direct_bases.deep_view(), i as int),
            decreases self.direct_bases@.len() - i,
        {
            let b = &self.direct_bases[i];
            if b.mdisp == 0 && b.vdisp == 0 && b.pdisp == -1 {
                return Some(b);
            }
            i += 1;
        }
        None
    }
}

pub struct Rtti {
    pub classes: Table<String, Class>,
    /// vtable rva -> (class name, index in class.vtables)
    pub vtable_owner: Table<u32, (String, usize)>,
}

/// Model of the RTTI of a module.
pub ghost struct RttiV {
    pub classes: Seq<(Seq<char>, ClassV)>,
    pub vtable_owner: Seq<(u32, (Seq<char>, usize))>,
}

impl DeepView for Rtti {
    type V = RttiV;

    open spec fn deep_view(&self) -> RttiV {
        RttiV { classes: self.classes.deep_view(), vtable_owner: self.vtable_owner.deep_view() }
    }
}

impl RttiV {
    pub open spec fn class(self, name: Seq<char>) -> Option<ClassV> {
        table::get(self.classes, name)
    }
}

impl Rtti {
    pub fn class(&self, name: &str) -> (r: Option<&Class>)
        ensures
            r.deep_view() == self.deep_view().class(name@),
    {
        self.classes.get(&name.to_owned())
    }
}

// ---------------------------------------------------------------------------
// 1. Type descriptors: `{ pVFTable, spare, char name[] }`.

/// The address and the name of the type descriptor whose name is at `name_rva`.
pub open spec fn descriptor_at(pe: PeV, name_rva: u32) -> Option<(u32, Seq<char>)> {
    if name_rva < 16 || (name_rva - 16) % 8 != 0 {
        None
    } else {
        match pe::c_string(pe.image, name_rva as int) {
            None => None,
            Some(raw) => if text::byte_count(raw) < 6 || !text::suffixed(raw, "@@"@) {
                None
            } else {
                Some(((name_rva - 16) as u32, raw))
            },
        }
    }
}

fn find_descriptor(pe: &Pe, name_rva: u32) -> (r: Option<(u32, String)>)
    ensures
        r.deep_view() == descriptor_at(pe.deep_view(), name_rva),
{
    if name_rva < 16 || (name_rva - 16) % 8 != 0 {
        return None;
    }
    match pe.cstr(name_rva) {
        None => None,
        Some(raw) => if text::byte_len(raw.as_str()) < 6 || !text::ends_with(raw.as_str(), "@@") {
            None
        } else {
            Some((name_rva - 16, raw))
        },
    }
}

/// Type descriptors by address, each with its demangled and its raw name.
pub type Descriptors = Seq<(u32, (Seq<char>, Seq<char>))>;

/// The type descriptors seen so far, and how often each vtable pointer starts
/// one.
pub ghost struct Seen {
    pub tds: Descriptors,
    pub vts: Seq<(u64, usize)>,
}

/// The vtable pointer of the descriptor at `td`.
pub open spec fn vtable_word(pe: PeV, td: u32) -> u64 {
    match pe.u64(td as int) {
        Some(v) => v,
        None => 0,
    }
}

/// What is seen after the first `n` hits at offsets into a section at `rva`.
pub open spec fn seen_hits(pe: PeV, seen: Seen, rva: u32, hits: Seq<usize>, n: int) -> Seen
    decreases n,
{
    if n <= 0 {
        seen
    } else {
        let s = seen_hits(pe, seen, rva, hits, n - 1);
        match descriptor_at(pe, rva.wrapping_add(hits[n - 1] as u32)) {
            None => s,
            Some((td, raw)) => {
                let vt = vtable_word(pe, td);
                Seen {
                    tds: table::put(s.tds, td, (names::type_text(raw), raw)),
                    vts: table::with_vote(s.vts, vt),
                }
            },
        }
    }
}

/// What is seen after the first `n` data sections, classes before structs.
pub open spec fn seen_sections(pe: PeV, n: int) -> Seen
    decreases n,
{
    if n <= 0 {
        Seen { tds: Seq::empty(), vts: Seq::empty() }
    } else {
        let s = seen_sections(pe, n - 1);
        let sec = pe.data_sections()[n - 1];
        let data = pe.bytes(sec.rva, sec.vsize as int);
        let hits = search::occurrences(data, class_mark());
        let s = seen_hits(pe, s, sec.rva, hits, hits.len() as int);
        let hits = search::occurrences(data, struct_mark());
        seen_hits(pe, s, sec.rva, hits, hits.len() as int)
    }
}

/// `.?AV`
pub open spec fn class_mark() -> Seq<u8> {
    seq![0x2eu8, 0x3fu8, 0x41u8, 0x56u8]
}

/// `.?AU`
pub open spec fn struct_mark() -> Seq<u8> {
    seq![0x2eu8, 0x3fu8, 0x41u8, 0x55u8]
}

/// The key with the most votes among the first `n`, the greatest of them where
/// several have as many.
pub open spec fn most_voted(votes: Seq<(u64, usize)>, n: int) -> Option<(u64, usize)>
    decreases n,
{
    if n <= 0 {
        None
    } else {
        match most_voted(votes, n - 1) {
            Some(best) => if votes[n - 1].1 >= best.1 {
                Some(votes[n - 1])
            } else {
                Some(best)
            },
            None => Some(votes[n - 1]),
        }
    }
}

/// Those of the first `n` descriptors that start with the vtable pointer `vt`.
pub open spec fn genuine(pe: PeV, tds: Descriptors, vt: u64, n: int) -> Descriptors
    decreases n,
{
    if n <= 0 {
        Seq::empty()
    } else {
        let s = genuine(pe, tds, vt, n - 1);
        if pe.u64(tds[n - 1].0 as int) == Some(vt) {
            table::put(s, tds[n - 1].0, tds[n - 1].1)
        } else {
            s
        }
    }
}

/// The type descriptors of a module. All genuine ones share the vtable pointer
/// of `type_info`, which is the most common one.
pub open spec fn descriptors(pe: PeV) -> Descriptors {
    let s = seen_sections(pe, pe.data_sections().len() as int);
    match most_voted(s.vts, s.vts.len() as int) {
        Some(best) => genuine(pe, s.tds, best.0, s.tds.len() as int),
        None => s.tds,
    }
}

struct Sightings {
    tds: Table<u32, (String, String)>,
    vts: Table<u64, usize>,
}

impl DeepView for Sightings {
    type V = Seen;

    closed spec fn deep_view(&self) -> Seen {
        Seen { tds: self.tds.deep_view(), vts: self.vts.deep_view() }
    }
}

fn look_at_hits(pe: &Pe, seen: &mut Sightings, rva: u32, hits: &Vec<usize>)
    ensures
        final(seen).deep_view() == seen_hits(pe.deep_view(), old(seen).deep_view(), rva, hits@, hits@.len() as int),
{
    let ghost before = seen.deep_view();
    let mut i: usize = 0;
    while i < hits.len()
        invariant
            before == old(seen).deep_view(),
            i <= hits@.len(),
            seen.deep_view() == seen_hits(pe.deep_view(), before, rva, hits@, i as int),
        decreases hits@.len() - i,
    {
        if let Some((td, raw)) = find_descriptor(pe, rva.wrapping_add(hits[i] as u32)) {
            let vt: u64 = match pe.u64(td) {
                Some(v) => v,
                None => 0,
            };
            table::vote(&mut seen.vts, vt);
            let name = names::demangle_type(raw.as_str());
            seen.tds.insert(td, (name, raw));
        }
        i += 1;
    }
}

fn find_descriptors(pe: &Pe) -> (r: Table<u32, (String, String)>)
    ensures
        r.deep_view() == descriptors(pe.deep_view()),
{
    let ghost p = pe.deep_view();
    let sections = pe.data_sections();
    let mut seen = Sightings { tds: Table::new(), vts: Table::new() };
    let class: Vec<u8> = vec![0x2eu8, 0x3fu8, 0x41u8, 0x56u8];
    let strukt: Vec<u8> = vec![0x2eu8, 0x3fu8, 0x41u8, 0x55u8];
    assert(class@ =~= class_mark());
    assert(strukt@ =~= struct_mark());
    let mut i: usize = 0;
    while i < sections.len()
        invariant
            p == pe.deep_view(),
            sections.deep_view() == p.data_sections(),
            class@ == class_mark(),
            strukt@ == struct_mark(),
            i <= sections@.len(),
            seen.deep_view() == seen_sections(p, i as int),
        decreases sections@.len() - i,
    {
        let sec = sections[i];
        assert(sec.deep_view() == p.data_sections()[i as int]);
        let data = pe.bytes(sec.rva, sec.vsize as usize);
        let hits = search::find_all(data, class.as_slice());
        look_at_hits(pe, &mut seen, sec.rva, &hits);
        let hits = search::find_all(data, strukt.as_slice());
        look_at_hits(pe, &mut seen, sec.rva, &hits);
        i += 1;
    }
    assert(sections@.len() == p.data_sections().len());
    let mut best: Option<(u64, usize)> = None;
    let ghost s = seen.deep_view();
    i = 0;
    while i < seen.vts.len()
        invariant
            s == seen.deep_view(),
            i <= s.vts.len(),
            best == most_voted(s.vts, i as int),
        decreases s.vts.len() - i,
    {
        let n = *seen.vts.value_at(i);
        let k = *seen.vts.key_at(i);
        match best {
            Some(b) => {
                if n >= b.1 {
                    best = Some((k, n));
                }
            },
            None => {
                best = Some((k, n));
            },
        }
        i += 1;
    }
    match best {
        None => seen.tds,
        Some((common, _)) => {
            let mut out: Table<u32, (String, String)> = Table::new();
            i = 0;
            while i < seen.tds.len()
                invariant
                    p == pe.deep_view(),
                    s == seen.deep_view(),
                    i <= s.tds.len(),
                    out.deep_view() == genuine(p, s.tds, common, i as int),
                decreases s.tds.len() - i,
            {
                let td = *seen.tds.key_at(i);
                if pe.u64(td) == Some(common) {
                    let v = seen.tds.value_at(i);
                    out.insert(td, (v.0.clone(), v.1.clone()));
                }
                i += 1;
            }
            out
        },
    }
}

// ---------------------------------------------------------------------------
// 2. Complete object locators: signature 1, pSelf == own RVA.

/// A complete object locator.
#[derive(Clone, Copy, Debug)]
pub struct Locator {
    pub rva: u32,
    pub offset: u32,
    pub cd_offset: u32,
    pub td: u32,
    pub chd: u32,
}

/// The 32-bit number `k` bytes behind an address.
pub open spec fn field32(pe: PeV, r: u32, k: u32) -> Option<u32> {
    pe.u32(r.wrapping_add(k) as int)
}

/// The locator at an address.
pub open spec fn locator_at(pe: PeV, tds: Descriptors, r: u32) -> Option<Locator> {
    if field32(pe, r, 0) != Some(1u32) || field32(pe, r, 20) != Some(r) {
        None
    } else {
        match (field32(pe, r, 12), field32(pe, r, 4), field32(pe, r, 8), field32(pe, r, 16)) {
            (Some(td), Some(offset), Some(cd_offset), Some(chd)) => if table::holds(tds, td) {
                Some(Locator { rva: r, offset, cd_offset, td, chd })
            } else {
                None
            },
            _ => None,
        }
    }
}

fn find_locator(pe: &Pe, tds: &Table<u32, (String, String)>, r: u32) -> (l: Option<Locator>)
    ensures
        l == locator_at(pe.deep_view(), tds.deep_view(), r),
{
    if pe.u32(r.wrapping_add(0)) != Some(1u32) || pe.u32(r.wrapping_add(20)) != Some(r) {
        return None;
    }
    match (
        pe.u32(r.wrapping_add(12)),
        pe.u32(r.wrapping_add(4)),
        pe.u32(r.wrapping_add(8)),
        pe.u32(r.wrapping_add(16)),
    ) {
        (Some(td), Some(offset), Some(cd_offset), Some(chd)) => if tds.contains(&td) {
            Some(Locator { rva: r, offset, cd_offset, td, chd })
        } else {
            None
        },
        _ => None,
    }
}

/// How many multiples of `step` lie below `vsize - tail`.
pub open spec fn slots_in(vsize: u32, tail: int, step: int) -> int {
    if vsize <= tail {
        0
    } else {
        (vsize - tail + step - 1) / step
    }
}

/// The locators among the first `n` double words of the section at `rva`.
pub open spec fn locators_in(pe: PeV, tds: Descriptors, rva: u32, n: int) -> Seq<Locator>
    decreases n,
{
    if n <= 0 {
        Seq::empty()
    } else {
        let s = locators_in(pe, tds, rva, n - 1);
        match locator_at(pe, tds, rva.wrapping_add(((n - 1) * 4) as u32)) {
            Some(l) => s.push(l),
            None => s,
        }
    }
}

/// The locators of the first `n` data sections.
pub open spec fn locators(pe: PeV, tds: Descriptors, n: int) -> Seq<Locator>
    decreases n,
{
    if n <= 0 {
        Seq::empty()
    } else {
        let sec = pe.data_sections()[n - 1];
        locators(pe, tds, n - 1) + locators_in(pe, tds, sec.rva, slots_in(sec.vsize, 24, 4))
    }
}

fn find_locators(pe: &Pe, tds: &Table<u32, (String, String)>) -> (r: Vec<Locator>)
    ensures
        r@ == locators(pe.deep_view(), tds.deep_view(), pe.deep_view().data_sections().len() as int),
{
    let ghost p = pe.deep_view();
    let ghost t = tds.deep_view();
    let sections = pe.data_sections();
    let mut out: Vec<Locator> = Vec::new();
    let mut i: usize = 0;
    while i < sections.len()
        invariant
            p == pe.deep_view(),
            t == tds.deep_view(),
            sections.deep_view() == p.data_sections(),
            i <= sections@.len(),
            out@ == locators(p, t, i as int),
        decreases sections@.len() - i,
    {
        let sec = sections[i];
        assert(sec.deep_view() == p.data_sections()[i as int]);
        let n: u32 = if sec.vsize <= 24 { 0 } else { (sec.vsize - 24 - 1) / 4 + 1 };
        assert(n == slots_in(sec.vsize, 24, 4));
        let ghost before = out@;
        let mut k: u32 = 0;
        assert(before + Seq::<Locator>::empty() =~= before);
        while k < n
            invariant
                p == pe.deep_view(),
                t == tds.deep_view(),
                k <= n,
                n <= 0x4000_0000,
                out@ == before + locators_in(p, t, sec.rva, k as int),
            decreases n - k,
        {
            let ghost pre = locators_in(p, t, sec.rva, k as int);
            if let Some(l) = find_locator(pe, tds, sec.rva.wrapping_add(k * 4)) {
                out.push(l);
                assert((before + pre).push(l) =~= before + pre.push(l));
            }
            k += 1;
        }
        i += 1;
    }
    assert(sections@.len() == p.data_sections().len());
    out
}

/// The index of each of the first `n` locators by its address in memory.
pub open spec fn locator_index(pe: PeV, cols: Seq<Locator>, n: int) -> Seq<(u64, usize)>
    decreases n,
{
    if n <= 0 {
        Seq::empty()
    } else {
        table::put(locator_index(pe, cols, n - 1), pe.rva_to_va(cols[n - 1].rva), (n - 1) as usize)
    }
}

fn index_locators(pe: &Pe, cols: &Vec<Locator>) -> (r: Table<u64, usize>)
    ensures
        r.deep_view() == locator_index(pe.deep_view(), cols@, cols@.len() as int),
{
    let mut t: Table<u64, usize> = Table::new();
    let mut i: usize = 0;
    while i < cols.len()
        invariant
            i <= cols@.len(),
            t.deep_view() == locator_index(pe.deep_view(), cols@, i as int),
        decreases cols@.len() - i,
    {
        t.insert(pe.rva_to_va(cols[i].rva), i);
        i += 1;
    }
    t
}

// ---------------------------------------------------------------------------
// 3. Vtables: an 8-aligned pointer to a locator, immediately followed by code
// pointers.

/// The vtable behind a pointer to a locator at `r`: its address and the index
/// of the locator.
pub open spec fn hit_at(pe: PeV, index: Seq<(u64, usize)>, r: u32) -> Option<(u32, usize)> {
    match pe.u64(r as int) {
        None => None,
        Some(p) => match table::get(index, p) {
            Some(i) => Some((r.wrapping_add(8), i)),
            None => None,
        },
    }
}

/// The vtables among the first `n` quad words of the section at `rva`.
pub open spec fn hits_in(pe: PeV, index: Seq<(u64, usize)>, rva: u32, n: int) -> Seq<(u32, usize)>
    decreases n,
{
    if n <= 0 {
        Seq::empty()
    } else {
        let s = hits_in(pe, index, rva, n - 1);
        match hit_at(pe, index, rva.wrapping_add(((n - 1) * 8) as u32)) {
            Some(h) => s.push(h),
            None => s,
        }
    }
}

/// The vtables of the first `n` data sections.
pub open spec fn hits(pe: PeV, index: Seq<(u64, usize)>, n: int) -> Seq<(u32, usize)>
    decreases n,
{
    if n <= 0 {
        Seq::empty()
    } else {
        let sec = pe.data_sections()[n - 1];
        hits(pe, index, n - 1) + hits_in(pe, index, sec.rva, slots_in(sec.vsize, 8, 8))
    }
}

fn find_hits(pe: &Pe, index: &Table<u64, usize>) -> (r: Vec<(u32, usize)>)
    ensures
        r@ == hits(pe.deep_view(), index.deep_view(), pe.deep_view().data_sections().len() as int),
{
    let ghost p = pe.deep_view();
    let ghost t = index.deep_view();
    let sections = pe.data_sections();
    let mut out: Vec<(u32, usize)> = Vec::new();
    let mut i: usize = 0;
    while i < sections.len()
        invariant
            p == pe.deep_view(),
            t == index.deep_view(),
            sections.deep_view() == p.data_sections(),
            i <= sections@.len(),
            out@ == hits(p, t, i as int),
        decreases sections@.len() - i,
    {
        let sec = sections[i];
        assert(sec.deep_view() == p.data_sections()[i as int]);
        let n: u32 = if sec.vsize <= 8 { 0 } else { (sec.vsize - 8 - 1) / 8 + 1 };
        assert(n == slots_in(sec.vsize, 8, 8));
        let ghost before = out@;
        let mut k: u32 = 0;
        assert(before + Seq::<(u32, usize)>::empty() =~= before);
        while k < n
            invariant
                p == pe.deep_view(),
                t == index.deep_view(),
                k <= n,
                n <= 0x2000_0000,
                out@ == before + hits_in(p, t, sec.rva, k as int),
            decreases n - k,
        {
            let ghost pre = hits_in(p, t, sec.rva, k as int);
            let r = sec.rva.wrapping_add(k * 8);
            if let Some(w) = pe.u64(r) {
                if let Some(ci) = index.get(&w) {
                    let h = (r.wrapping_add(8), *ci);
                    out.push(h);
                    assert((before + pre).push(h) =~= before + pre.push(h));
                }
            }
            k += 1;
        }
        i += 1;
    }
    assert(sections@.len() == p.data_sections().len());
    out
}

/// The addresses of the locator pointers in front of the first `n` vtables.
pub open spec fn meta_slots(hs: Seq<(u32, usize)>, n: int) -> Seq<(u32, ())>
    decreases n,
{
    if n <= 0 {
        Seq::empty()
    } else {
        table::put(meta_slots(hs, n - 1), hs[n - 1].0.wrapping_sub(8), ())
    }
}

fn slots_before(hs: &Vec<(u32, usize)>) -> (r: Table<u32, ()>)
    ensures
        r.deep_view() == meta_slots(hs@, hs@.len() as int),
{
    let mut t: Table<u32, ()> = Table::new();
    let mut i: usize = 0;
    while i < hs.len()
        invariant
            i <= hs@.len(),
            t.deep_view() == meta_slots(hs@, i as int),
        decreases hs@.len() - i,
    {
        t.insert(hs[i].0.wrapping_sub(8), ());
        i += 1;
    }
    t
}

/// The code pointers at `r`, `count` entries standing before it: they run up
/// to the next vtable or to what is no code pointer.
pub open spec fn entries_from(pe: PeV, meta: Seq<(u32, ())>, r: u32, count: int) -> Seq<u32>
    decreases 4097 - count,
{
    if count > 0 && table::holds(meta, r) {
        Seq::empty()
    } else {
        match pe.u64(r as int) {
            None => Seq::empty(),
            Some(p) => match pe.va_to_rva(p) {
                None => Seq::empty(),
                Some(t) => if !pe.is_exec(t) {
                    Seq::empty()
                } else if count + 1 > 4096 {
                    seq![t]
                } else {
                    seq![t] + entries_from(pe, meta, r.wrapping_add(8), count + 1)
                },
            },
        }
    }
}

fn read_entries(pe: &Pe, meta: &Table<u32, ()>, vt: u32) -> (r: Vec<u32>)
    ensures
        r@ == entries_from(pe.deep_view(), meta.deep_view(), vt, 0),
{
    let ghost p = pe.deep_view();
    let ghost m = meta.deep_view();
    let ghost all = entries_from(p, m, vt, 0);
    let mut out: Vec<u32> = Vec::new();
    let mut r = vt;
    assert(out@ + all =~= all);
    loop
        invariant_except_break
            out@.len() <= 4096,
            out@ + entries_from(p, m, r, out@.len() as int) == all,
        invariant
            p == pe.deep_view(),
            m == meta.deep_view(),
        ensures
            out@ == all,
        decreases 4097 - out@.len(),
    {
        assert(out@ + Seq::<u32>::empty() =~= out@);
        if out.len() > 0 && meta.contains(&r) {
            break;
        }
        let w = match pe.u64(r) {
            Some(w) => w,
            None => {
                break;
            },
        };
        let t = match pe.va_to_rva(w) {
            Some(t) => t,
            None => {
                break;
            },
        };
        if !pe.is_exec(t) {
            break;
        }
        let ghost pre = out@;
        out.push(t);
        r = r.wrapping_add(8);
        if out.len() > 4096 {
            assert(pre + seq![t] =~= out@);
            break;
        }
        proof {
            let rest = entries_from(p, m, r, out@.len() as int);
            assert(pre + (seq![t] + rest) =~= out@ + rest);
        }
    }
    out
}

// ---------------------------------------------------------------------------
// Classes.

/// A class of which only the descriptor is known.
pub open spec fn bare_class(td: u32, name: Seq<char>, raw: Seq<char>) -> ClassV {
    ClassV {
        name,
        mangled: raw,
        td_rva: td,
        chd_rva: None,
        chd_attributes: 0,
        all_bases: Seq::empty(),
        direct_bases: Seq::empty(),
        vtables: Seq::empty(),
    }
}

/// The classes of the first `n` descriptors; of descriptors with one name the
/// first counts.
pub open spec fn bare_classes(tds: Descriptors, n: int) -> Seq<(Seq<char>, ClassV)>
    decreases n,
{
    if n <= 0 {
        Seq::empty()
    } else {
        let (td, (name, raw)) = tds[n - 1];
        table::put_new(bare_classes(tds, n - 1), name, bare_class(td, name, raw))
    }
}

fn make_classes(tds: &Table<u32, (String, String)>) -> (r: Table<String, Class>)
    ensures
        r.deep_view() == bare_classes(tds.deep_view(), tds.deep_view().len() as int),
{
    let ghost t = tds.deep_view();
    let mut out: Table<String, Class> = Table::new();
    let mut i: usize = 0;
    while i < tds.len()
        invariant
            t == tds.deep_view(),
            i <= t.len(),
            out.deep_view() == bare_classes(t, i as int),
        decreases t.len() - i,
    {
        let td = *tds.key_at(i);
        let v = tds.value_at(i);
        if !out.contains(&v.0) {
            let c = Class {
                name: v.0.clone(),
                mangled: v.1.clone(),
                td_rva: td,
                chd_rva: None,
                chd_attributes: 0,
                all_bases: Vec::new(),
                direct_bases: Vec::new(),
                vtables: Vec::new(),
            };
            assert(c.deep_view() == bare_class(td, v.0@, v.1@)) by {
                assert(c.all_bases.deep_view() =~= Seq::empty());
                assert(c.direct_bases.deep_view() =~= Seq::empty());
                assert(c.vtables.deep_view() =~= Seq::empty());
            }
            out.insert(v.0.clone(), c);
        }
        i += 1;
    }
    out
}

/// The name of the type at a descriptor.
pub open spec fn name_of(tds: Descriptors, td: u32) -> Option<Seq<char>> {
    match table::get(tds, td) {
        Some(n) => Some(n.0),
        None => None,
    }
}

fn get_name(tds: &Table<u32, (String, String)>, td: u32) -> (r: Option<String>)
    ensures
        r.deep_view() == name_of(tds.deep_view(), td),
{
    match tds.get(&td) {
        Some(n) => Some(n.0.clone()),
        None => None,
    }
}

pub open spec fn or_zero(v: Option<u32>) -> u32 {
    match v {
        Some(v) => v,
        None => 0,
    }
}

pub open spec fn signed_or(v: Option<u32>, default: i32) -> i32 {
    match v {
        Some(v) => v as i32,
        None => default,
    }
}

/// The base class that a base class descriptor describes.
pub open spec fn base_at(pe: PeV, tds: Descriptors, bcd: u32) -> BaseClassV {
    let td = or_zero(field32(pe, bcd, 0));
    BaseClassV {
        name: match name_of(tds, td) {
            Some(n) => n,
            None => "<td "@ + num::hex(td as int) + ">"@,
        },
        contained: or_zero(field32(pe, bcd, 4)),
        mdisp: signed_or(field32(pe, bcd, 8), 0),
        pdisp: signed_or(field32(pe, bcd, 12), -1i32),
        vdisp: signed_or(field32(pe, bcd, 16), 0),
        attributes: or_zero(field32(pe, bcd, 20)),
        depth: 0,
    }
}

fn read_or(pe: &Pe, r: u32, k: u32, default: u32) -> (v: u32)
    ensures
        v == match field32(pe.deep_view(), r, k) {
            Some(v) => v,
            None => default,
        },
{
    match pe.u32(r.wrapping_add(k)) {
        Some(v) => v,
        None => default,
    }
}

fn read_signed_or(pe: &Pe, r: u32, k: u32, default: i32) -> (v: i32)
    ensures
        v == signed_or(field32(pe.deep_view(), r, k), default),
{
    match pe.i32(r.wrapping_add(k)) {
        Some(v) => v,
        None => default,
    }
}

fn read_base(pe: &Pe, tds: &Table<u32, (String, String)>, bcd: u32) -> (r: BaseClass)
    ensures
        r.deep_view() == base_at(pe.deep_view(), tds.deep_view(), bcd),
{
    let td = read_or(pe, bcd, 0, 0);
    let name = match get_name(tds, td) {
        Some(n) => n,
        None => {
            let mut n = String::new();
            n.append("<td ");
            let h = num::format_hex(td as u64);
            n.append(h.as_str());
            n.append(">");
            assert(n@ =~= "<td "@ + num::hex(td as int) + ">"@);
            n
        },
    };
    BaseClass {
        name,
        contained: read_or(pe, bcd, 4, 0),
        mdisp: read_signed_or(pe, bcd, 8, 0),
        pdisp: read_signed_or(pe, bcd, 12, -1),
        vdisp: read_signed_or(pe, bcd, 16, 0),
        attributes: read_or(pe, bcd, 20, 0),
        depth: 0,
    }
}

/// The flattened base class array at `arr` with `n` entries, from entry `i` on,
/// up to the first that lies outside the image.
pub open spec fn flat_from(pe: PeV, tds: Descriptors, arr: u32, n: int, i: int) -> Seq<BaseClassV>
    decreases n - i,
{
    if i < 0 || i >= n {
        Seq::empty()
    } else {
        match field32(pe, arr, (i * 4) as u32) {
            None => Seq::empty(),
            Some(bcd) => seq![base_at(pe, tds, bcd)] + flat_from(pe, tds, arr, n, i + 1),
        }
    }
}

fn read_flat(pe: &Pe, tds: &Table<u32, (String, String)>, arr: u32, n: u32) -> (r: Vec<BaseClass>)
    requires
        n <= 512,
    ensures
        r.deep_view() == flat_from(pe.deep_view(), tds.deep_view(), arr, n as int, 0),
        r@.len() <= 512,
{
    let ghost p = pe.deep_view();
    let ghost t = tds.deep_view();
    let ghost all = flat_from(p, t, arr, n as int, 0);
    let mut out: Vec<BaseClass> = Vec::new();
    let mut i: u32 = 0;
    assert(out.deep_view() + all =~= all);
    while i < n
        invariant_except_break
            out.deep_view() + flat_from(p, t, arr, n as int, i as int) == all,
        invariant
            p == pe.deep_view(),
            t == tds.deep_view(),
            n <= 512,
            i <= n,
            out@.len() <= i,
        ensures
            out.deep_view() == all,
        decreases n - i,
    {
        match pe.u32(arr.wrapping_add(i * 4)) {
            None => {
                assert(out.deep_view() + Seq::<BaseClassV>::empty() =~= out.deep_view());
                break;
            },
            Some(bcd) => {
                let b = read_base(pe, tds, bcd);
                let ghost pre = out.deep_view();
                let ghost x = b.deep_view();
                out.push(b);
                proof {
                    let rest = flat_from(p, t, arr, n as int, i + 1);
                    assert(out.deep_view() =~= pre.push(x));
                    assert(pre + (seq![x] + rest) =~= pre.push(x) + rest);
                }
            },
        }
        i += 1;
    }
    assert(out.deep_view() =~= all);
    out
}

/// Index behind the bases nested under entry `i`.
pub open spec fn nested_end(flat: Seq<BaseClassV>, i: int, end: int) -> int {
    pe::min(i + 1 + flat[i].contained, end)
}

/// `flat` with the depths of the entries from `i` to `end`, which stand at
/// `depth`: the array lists each base before the bases nested under it.
pub open spec fn with_depths(flat: Seq<BaseClassV>, i: int, end: int, depth: u32) -> Seq<BaseClassV>
    decreases end - i,
{
    if i < 0 || i >= end || end > flat.len() {
        flat
    } else {
        let sub_end = nested_end(flat, i, end);
        let here = flat.update(i, BaseClassV { depth, ..flat[i] });
        let below = with_depths(here, i + 1, sub_end, depth.wrapping_add(1));
        with_depths(below, sub_end, end, depth)
    }
}

fn set_depths(flat: &mut Vec<BaseClass>, start: usize, end: usize, depth: u32)
    requires
        end <= old(flat)@.len() <= 512,
    ensures
        final(flat).deep_view() == with_depths(old(flat).deep_view(), start as int, end as int, depth),
        final(flat)@.len() == old(flat)@.len(),
    decreases end - start, 1int,
{
    let ghost all = with_depths(flat.deep_view(), start as int, end as int, depth);
    let mut i: usize = start;
    while i < end
        invariant
            start <= i,
            end <= flat@.len() <= 512,
            flat@.len() == old(flat)@.len(),
            with_depths(flat.deep_view(), i as int, end as int, depth) == all,
        decreases end - i,
    {
        let ghost f = flat.deep_view();
        let n = flat[i].contained as usize;
        let sub_end: usize = if n < end - i - 1 { i + 1 + n } else { end };
        assert(sub_end == nested_end(f, i as int, end as int));
        flat[i].depth = depth;
        assert(flat.deep_view() =~= f.update(i as int, BaseClassV { depth, ..f[i as int] }));
        set_depths(flat, i + 1, sub_end, depth.wrapping_add(1));
        i = sub_end;
    }
}

/// The direct bases among the entries from `i` on.
pub open spec fn direct_from(flat: Seq<BaseClassV>, i: int) -> Seq<BaseClassV>
    decreases flat.len() - i,
{
    if i < 0 || i >= flat.len() {
        Seq::empty()
    } else {
        seq![flat[i]] + direct_from(flat, nested_end(flat, i, flat.len() as int))
    }
}

fn find_direct(flat: &Vec<BaseClass>) -> (r: Vec<BaseClass>)
    requires
        flat@.len() <= 512,
    ensures
        r.deep_view() == direct_from(flat.deep_view(), 1),
{
    let ghost f = flat.deep_view();
    let mut out: Vec<BaseClass> = Vec::new();
    let mut i: usize = 1;
    assert(out.deep_view() + direct_from(f, 1) =~= direct_from(f, 1));
    while i < flat.len()
        invariant
            f == flat.deep_view(),
            flat@.len() <= 512,
            1 <= i,
            out.deep_view() + direct_from(f, i as int) == direct_from(f, 1),
        decreases flat@.len() - i,
    {
        let n = flat[i].contained as usize;
        let next: usize = if n < flat.len() - i - 1 { i + 1 + n } else { flat.len() };
        let ghost pre = out.deep_view();
        out.push(flat[i].clone());
        proof {
            let x = f[i as int];
            assert(next == nested_end(f, i as int, f.len() as int));
            let rest = direct_from(f, next as int);
            assert(out.deep_view() =~= pre.push(x));
            assert(pre + (seq![x] + rest) =~= pre.push(x) + rest);
        }
        i = next;
    }
    assert(out.deep_view() + Seq::<BaseClassV>::empty() =~= out.deep_view());
    out
}

/// A class with the bases that its hierarchy descriptor at `chd` lists.
pub open spec fn with_hierarchy(pe: PeV, tds: Descriptors, c: ClassV, chd: u32) -> ClassV {
    if c.chd_rva is Some {
        c
    } else {
        match (field32(pe, chd, 4), field32(pe, chd, 8), field32(pe, chd, 12)) {
            (Some(attrs), Some(nbases), Some(arr)) => if nbases == 0 || nbases > 512 {
                c
            } else {
                let flat = flat_from(pe, tds, arr, nbases as int, 0);
                let flat = with_depths(flat, 1, flat.len() as int, 1);
                ClassV {
                    chd_rva: Some(chd),
                    chd_attributes: attrs,
                    direct_bases: direct_from(flat, 1),
                    all_bases: if flat.len() > 0 {
                        flat.skip(1)
                    } else {
                        flat
                    },
                    ..c
                }
            },
            _ => c,
        }
    }
}

fn read_hierarchy(pe: &Pe, tds: &Table<u32, (String, String)>, c: &mut Class, chd: u32)
    ensures
        final(c).deep_view() == with_hierarchy(pe.deep_view(), tds.deep_view(), old(c).deep_view(), chd),
{
    if c.chd_rva.is_some() {
        return;
    }
    match (pe.u32(chd.wrapping_add(4)), pe.u32(chd.wrapping_add(8)), pe.u32(chd.wrapping_add(12))) {
        (Some(attrs), Some(nbases), Some(arr)) => {
            if nbases == 0 || nbases > 512 {
                return;
            }
            c.chd_rva = Some(chd);
            c.chd_attributes = attrs;
            let mut flat = read_flat(pe, tds, arr, nbases);
            let n = flat.len();
            set_depths(&mut flat, 1, n, 1);
            c.direct_bases = find_direct(&flat);
            let ghost f = flat.deep_view();
            if flat.len() > 0 {
                let first = flat.remove(0);
                assert(flat.deep_view() =~= f.skip(1));
            }
            c.all_bases = flat;
        },
        _ => {},
    }
}

/// The classes after the hierarchies of the first `n` locators.
pub open spec fn with_hierarchies(
    pe: PeV,
    tds: Descriptors,
    cs: Seq<(Seq<char>, ClassV)>,
    cols: Seq<Locator>,
    n: int,
) -> Seq<(Seq<char>, ClassV)>
    decreases n,
{
    if n <= 0 {
        cs
    } else {
        let s = with_hierarchies(pe, tds, cs, cols, n - 1);
        let col = cols[n - 1];
        match name_of(tds, col.td) {
            None => s,
            Some(name) => match table::get(s, name) {
                None => s,
                Some(c) => table::put(s, name, with_hierarchy(pe, tds, c, col.chd)),
            },
        }
    }
}

fn read_hierarchies(pe: &Pe, tds: &Table<u32, (String, String)>, classes: &mut Table<String, Class>, cols: &Vec<Locator>)
    ensures
        final(classes).deep_view() == with_hierarchies(
            pe.deep_view(),
            tds.deep_view(),
            old(classes).deep_view(),
            cols@,
            cols@.len() as int,
        ),
{
    let ghost before = classes.deep_view();
    let mut i: usize = 0;
    while i < cols.len()
        invariant
            before == old(classes).deep_view(),
            i <= cols@.len(),
            classes.deep_view() == with_hierarchies(pe.deep_view(), tds.deep_view(), before, cols@, i as int),
        decreases cols@.len() - i,
    {
        let col = cols[i];
        if let Some(name) = get_name(tds, col.td) {
            match classes.take(&name) {
                Some(c) => {
                    let mut c = c;
                    read_hierarchy(pe, tds, &mut c, col.chd);
                    classes.insert(name, c);
                },
                None => {},
            }
        }
        i += 1;
    }
}

/// The vtable at a hit.
pub open spec fn vtable_of(pe: PeV, meta: Seq<(u32, ())>, vt: u32, col: Locator) -> VtableV {
    VtableV {
        rva: vt,
        col_rva: col.rva,
        offset: col.offset,
        cd_offset: col.cd_offset,
        entries: entries_from(pe, meta, vt, 0),
    }
}

/// The classes with the vtables of the first `n` hits.
pub open spec fn with_vtables(
    pe: PeV,
    tds: Descriptors,
    cs: Seq<(Seq<char>, ClassV)>,
    cols: Seq<Locator>,
    hs: Seq<(u32, usize)>,
    n: int,
) -> Seq<(Seq<char>, ClassV)>
    decreases n,
{
    if n <= 0 {
        cs
    } else {
        let s = with_vtables(pe, tds, cs, cols, hs, n - 1);
        let (vt, ci) = hs[n - 1];
        if ci >= cols.len() {
            s
        } else {
            let col = cols[ci as int];
            match name_of(tds, col.td) {
                None => s,
                Some(name) => match table::get(s, name) {
                    None => s,
                    Some(c) => table::put(
                        s,
                        name,
                        ClassV {
                            vtables: c.vtables.push(vtable_of(pe, meta_slots(hs, hs.len() as int), vt, col)),
                            ..c
                        },
                    ),
                },
            }
        }
    }
}

fn read_vtables(
    pe: &Pe,
    tds: &Table<u32, (String, String)>,
    classes: &mut Table<String, Class>,
    cols: &Vec<Locator>,
    hs: &Vec<(u32, usize)>,
)
    ensures
        final(classes).deep_view() == with_vtables(
            pe.deep_view(),
            tds.deep_view(),
            old(classes).deep_view(),
            cols@,
            hs@,
            hs@.len() as int,
        ),
{
    let ghost before = classes.deep_view();
    let meta = slots_before(hs);
    let mut i: usize = 0;
    while i < hs.len()
        invariant
            before == old(classes).deep_view(),
            meta.deep_view() == meta_slots(hs@, hs@.len() as int),
            i <= hs@.len(),
            classes.deep_view() == with_vtables(pe.deep_view(), tds.deep_view(), before, cols@, hs@, i as int),
        decreases hs@.len() - i,
    {
        let (vt, ci) = hs[i];
        if ci < cols.len() {
            let col = cols[ci];
            if let Some(name) = get_name(tds, col.td) {
                match classes.take(&name) {
                    Some(c) => {
                        let mut c = c;
                        let entries = read_entries(pe, &meta, vt);
                        let v = Vtable { rva: vt, col_rva: col.rva, offset: col.offset, cd_offset: col.cd_offset, entries };
                        let ghost vs = c.vtables.deep_view();
                        let ghost x = v.deep_view();
                        c.vtables.push(v);
                        assert(c.vtables.deep_view() =~= vs.push(x));
                        classes.insert(name, c);
                    },
                    None => {},
                }
            }
        }
        i += 1;
    }
}

/// The keys that vtables are ordered by: subobject offset, then address.
pub open spec fn vtable_keys(vs: Seq<VtableV>) -> Seq<(u32, u32)> {
    Seq::new(vs.len(), |i: int| (vs[i].offset, vs[i].rva))
}

/// A class with its vtables in order.
pub open spec fn in_order(c: ClassV) -> ClassV {
    ClassV { vtables: table::sorted_by(vtable_keys(c.vtables), c.vtables), ..c }
}

/// The first `n` classes with their vtables in order, the others as they are.
pub open spec fn all_in_order(cs: Seq<(Seq<char>, ClassV)>, n: int) -> Seq<(Seq<char>, ClassV)> {
    Seq::new(
        cs.len(),
        |i: int|
            if i < n {
                (cs[i].0, in_order(cs[i].1))
            } else {
                cs[i]
            },
    )
}

fn order_vtables(c: &Class) -> (r: Class)
    ensures
        r.deep_view() == in_order(c.deep_view()),
{
    let mut r = c.clone();
    let mut keys: Vec<(u32, u32)> = Vec::new();
    let ghost vs = r.vtables.deep_view();
    let mut i: usize = 0;
    while i < r.vtables.len()
        invariant
            vs == r.vtables.deep_view(),
            i <= r.vtables@.len(),
            keys@ == vtable_keys(vs).take(i as int),
        decreases r.vtables@.len() - i,
    {
        keys.push((r.vtables[i].offset, r.vtables[i].rva));
        i += 1;
        assert(keys@ =~= vtable_keys(vs).take(i as int));
    }
    let mut vtables: Vec<Vtable> = Vec::new();
    std::mem::swap(&mut vtables, &mut r.vtables);
    assert(table::key_models(keys@) =~= vtable_keys(vs));
    r.vtables = table::stable_sort(keys, vtables);
    r
}

/// The owners of the first `n` vtables of a class.
pub open spec fn owned(
    owners: Seq<(u32, (Seq<char>, usize))>,
    name: Seq<char>,
    vs: Seq<VtableV>,
    n: int,
) -> Seq<(u32, (Seq<char>, usize))>
    decreases n,
{
    if n <= 0 {
        owners
    } else {
        table::put(owned(owners, name, vs, n - 1), vs[n - 1].rva, (name, (n - 1) as usize))
    }
}

/// The owners of the vtables of the first `n` classes.
pub open spec fn owners(cs: Seq<(Seq<char>, ClassV)>, n: int) -> Seq<(u32, (Seq<char>, usize))>
    decreases n,
{
    if n <= 0 {
        Seq::empty()
    } else {
        let c = cs[n - 1].1;
        owned(owners(cs, n - 1), c.name, c.vtables, c.vtables.len() as int)
    }
}

fn find_owners(classes: &Table<String, Class>) -> (r: Table<u32, (String, usize)>)
    ensures
        r.deep_view() == owners(classes.deep_view(), classes.deep_view().len() as int),
{
    let ghost cs = classes.deep_view();
    let mut out: Table<u32, (String, usize)> = Table::new();
    let mut i: usize = 0;
    while i < classes.len()
        invariant
            cs == classes.deep_view(),
            i <= cs.len(),
            out.deep_view() == owners(cs, i as int),
        decreases cs.len() - i,
    {
        let c = classes.value_at(i);
        let ghost before = out.deep_view();
        let mut k: usize = 0;
        while k < c.vtables.len()
            invariant
                k <= c.vtables@.len(),
                out.deep_view() == owned(before, c.name@, c.vtables.deep_view(), k as int),
            decreases c.vtables@.len() - k,
        {
            out.insert(c.vtables[k].rva, (c.name.clone(), k));
            k += 1;
        }
        i += 1;
    }
    out
}

/// The RTTI of a module.
pub open spec fn scanned(pe: PeV) -> RttiV {
    let tds = descriptors(pe);
    let n = pe.data_sections().len() as int;
    let cols = locators(pe, tds, n);
    let hs = hits(pe, locator_index(pe, cols, cols.len() as int), n);
    let cs = bare_classes(tds, tds.len() as int);
    let cs = with_hierarchies(pe, tds, cs, cols, cols.len() as int);
    let cs = with_vtables(pe, tds, cs, cols, hs, hs.len() as int);
    let cs = all_in_order(cs, cs.len() as int);
    RttiV { classes: cs, vtable_owner: owners(cs, cs.len() as int) }
}

/// Recovers the classes of a module from its RTTI.
pub fn scan(pe: &Pe) -> (r: Rtti)
    ensures
        r.deep_view() == scanned(pe.deep_view()),
{
    let tds = find_descriptors(pe);
    let cols = find_locators(pe, &tds);
    let index = index_locators(pe, &cols);
    let hs = find_hits(pe, &index);
    let mut classes = make_classes(&tds);
    read_hierarchies(pe, &tds, &mut classes, &cols);
    read_vtables(pe, &tds, &mut classes, &cols, &hs);
    let ghost cs = classes.deep_view();
    let mut i: usize = 0;
    assert(classes.deep_view() =~= all_in_order(cs, 0));
    while i < classes.len()
        invariant
            i <= cs.len(),
            classes.deep_view() == all_in_order(cs, i as int),
        decreases cs.len() - i,
    {
        let c = order_vtables(classes.value_at(i));
        classes.set_at(i, c);
        i += 1;
        assert(classes.deep_view() =~= all_in_order(cs, i as int));
    }
    let vtable_owner = find_owners(&classes);
    Rtti { classes, vtable_owner }
}

// ---------------------------------------------------------------------------
// Laws.

/// Classes are in order and stored under their names.
pub open spec fn well_named(cs: Seq<(Seq<char>, ClassV)>) -> bool {
    table::ordered(cs) && forall|i: int| 0 <= i < cs.len() ==> (#[trigger] cs[i]).0 == cs[i].1.name
}

proof fn class_put_named(cs: Seq<(Seq<char>, ClassV)>, name: Seq<char>, c: ClassV)
    requires
        well_named(cs),
        c.name == name,
    ensures
        well_named(table::put(cs, name, c)),
        well_named(table::put_new(cs, name, c)),
{
    let t = table::put(cs, name, c);
    table::put_ordered(cs, name, c);
    table::rows_after_put(cs, name, c);
    assert forall|i: int| 0 <= i < t.len() implies (#[trigger] t[i]).0 == t[i].1.name by {
        if cs.contains(t[i]) {
            let j = choose|j: int| 0 <= j < cs.len() && cs[j] == t[i];
            assert(cs[j].0 == cs[j].1.name);
        }
    }
}

proof fn class_named(cs: Seq<(Seq<char>, ClassV)>, name: Seq<char>)
    requires
        well_named(cs),
    ensures
        table::get(cs, name) matches Some(c) ==> c.name == name,
{
    table::get_is_row(cs, name);
    if let Some(c) = table::get(cs, name) {
        let j = choose|j: int| 0 <= j < cs.len() && cs[j] == (name, c);
        assert(cs[j].0 == cs[j].1.name);
    }
}

proof fn bare_named(tds: Descriptors, n: int)
    ensures
        well_named(bare_classes(tds, n)),
    decreases n,
{
    if n > 0 {
        bare_named(tds, n - 1);
        let (td, (name, raw)) = tds[n - 1];
        class_put_named(bare_classes(tds, n - 1), name, bare_class(td, name, raw));
    }
}

proof fn hierarchies_named(pe: PeV, tds: Descriptors, cs: Seq<(Seq<char>, ClassV)>, cols: Seq<Locator>, n: int)
    requires
        well_named(cs),
    ensures
        well_named(with_hierarchies(pe, tds, cs, cols, n)),
    decreases n,
{
    if n > 0 {
        hierarchies_named(pe, tds, cs, cols, n - 1);
        let s = with_hierarchies(pe, tds, cs, cols, n - 1);
        if let Some(name) = name_of(tds, cols[n - 1].td) {
            class_named(s, name);
            if let Some(c) = table::get(s, name) {
                class_put_named(s, name, with_hierarchy(pe, tds, c, cols[n - 1].chd));
            }
        }
    }
}

proof fn vtables_named(
    pe: PeV,
    tds: Descriptors,
    cs: Seq<(Seq<char>, ClassV)>,
    cols: Seq<Locator>,
    hs: Seq<(u32, usize)>,
    n: int,
)
    requires
        well_named(cs),
    ensures
        well_named(with_vtables(pe, tds, cs, cols, hs, n)),
    decreases n,
{
    if n > 0 {
        vtables_named(pe, tds, cs, cols, hs, n - 1);
        let s = with_vtables(pe, tds, cs, cols, hs, n - 1);
        let (vt, ci) = hs[n - 1];
        if ci < cols.len() {
            let col = cols[ci as int];
            if let Some(name) = name_of(tds, col.td) {
                class_named(s, name);
                if let Some(c) = table::get(s, name) {
                    let v = vtable_of(pe, meta_slots(hs, hs.len() as int), vt, col);
                    class_put_named(s, name, ClassV { vtables: c.vtables.push(v), ..c });
                }
            }
        }
    }
}

/// A vtable is where its owner says.
pub open spec fn is_owned(cs: Seq<(Seq<char>, ClassV)>, vt: u32, o: (Seq<char>, usize)) -> bool {
    exists|i: int|
        0 <= i < cs.len() && (#[trigger] cs[i]).1.name == o.0 && o.1 < cs[i].1.vtables.len() && cs[i].1.vtables[o.1 as int].rva
            == vt
}

proof fn owned_hold(
    cs: Seq<(Seq<char>, ClassV)>,
    os: Seq<(u32, (Seq<char>, usize))>,
    k: int,
    n: int,
    vt: u32,
)
    requires
        table::ordered(os),
        0 <= k < cs.len(),
        0 <= n <= cs[k].1.vtables.len(),
        n <= usize::MAX,
        table::get(os, vt) matches Some(o) ==> is_owned(cs, vt, o),
    ensures
        table::ordered(owned(os, cs[k].1.name, cs[k].1.vtables, n)),
        table::get(owned(os, cs[k].1.name, cs[k].1.vtables, n), vt) matches Some(o) ==> is_owned(cs, vt, o),
    decreases n,
{
    if n > 0 {
        let c = cs[k].1;
        owned_hold(cs, os, k, n - 1, vt);
        let s = owned(os, c.name, c.vtables, n - 1);
        let o = (c.name, (n - 1) as usize);
        table::get_after_put(s, c.vtables[n - 1].rva, o, vt);
        if c.vtables[n - 1].rva == vt {
            assert(cs[k].1.name == o.0);
            assert(is_owned(cs, vt, o));
        }
    }
}

proof fn owners_hold(cs: Seq<(Seq<char>, ClassV)>, n: int, vt: u32)
    requires
        0 <= n <= cs.len(),
        forall|i: int| 0 <= i < cs.len() ==> (#[trigger] cs[i]).1.vtables.len() <= usize::MAX,
    ensures
        table::ordered(owners(cs, n)),
        table::get(owners(cs, n), vt) matches Some(o) ==> is_owned(cs, vt, o),
    decreases n,
{
    if n > 0 {
        owners_hold(cs, n - 1, vt);
        assert(cs[n - 1].1.vtables.len() <= usize::MAX);
        owned_hold(cs, owners(cs, n - 1), n - 1, cs[n - 1].1.vtables.len() as int, vt);
    }
}

proof fn well_named_finds(cs: Seq<(Seq<char>, ClassV)>, i: int)
    requires
        well_named(cs),
        0 <= i < cs.len(),
    ensures
        table::get(cs, cs[i].1.name) == Some(cs[i].1),
{
    let k = cs[i].0;
    assert(cs[i].0 == cs[i].1.name);
    assert(!k.before(k)) by {
        Seq::<char>::irreflexive(k);
    }
    table::rank_is(cs, k, 0, i);
}

/// The class that owns a vtable has it, at the index that the owner gives.
pub proof fn vtables_have_owners(pe: PeV, vt: u32)
    requires
        forall|i: int| 0 <= i < scanned(pe).classes.len() ==> (#[trigger] scanned(pe).classes[i]).1.vtables.len() <= usize::MAX,
    ensures
        well_named(scanned(pe).classes),
        table::get(scanned(pe).vtable_owner, vt) matches Some(o) ==> scanned(pe).class(o.0) matches Some(c) && c.name == o.0
            && o.1 < c.vtables.len() && c.vtables[o.1 as int].rva == vt,
{
    let tds = descriptors(pe);
    let n = pe.data_sections().len() as int;
    let cols = locators(pe, tds, n);
    let hs = hits(pe, locator_index(pe, cols, cols.len() as int), n);
    let a = bare_classes(tds, tds.len() as int);
    bare_named(tds, tds.len() as int);
    let b = with_hierarchies(pe, tds, a, cols, cols.len() as int);
    hierarchies_named(pe, tds, a, cols, cols.len() as int);
    let c = with_vtables(pe, tds, b, cols, hs, hs.len() as int);
    vtables_named(pe, tds, b, cols, hs, hs.len() as int);
    let cs = all_in_order(c, c.len() as int);
    assert(cs == scanned(pe).classes);
    assert(well_named(cs)) by {
        assert forall|i: int, j: int| 0 <= i < j < cs.len() implies (#[trigger] cs[i]).0.before((#[trigger] cs[j]).0) by {
            assert(c[i].0.before(c[j].0));
        }
        assert forall|i: int| 0 <= i < cs.len() implies (#[trigger] cs[i]).0 == cs[i].1.name by {
            assert(c[i].0 == c[i].1.name);
        }
    }
    owners_hold(cs, cs.len() as int, vt);
    if let Some(o) = table::get(scanned(pe).vtable_owner, vt) {
        let i = choose|i: int|
            0 <= i < cs.len() && (#[trigger] cs[i]).1.name == o.0 && o.1 < cs[i].1.vtables.len()
                && cs[i].1.vtables[o.1 as int].rva == vt;
        well_named_finds(cs, i);
    }
}

/// The vtables of a class come out by subobject offset, then address.
pub proof fn vtables_are_sorted(c: ClassV, a: int, b: int)
    requires
        c.vtables.len() <= usize::MAX,
        0 <= a < b < in_order(c).vtables.len(),
    ensures
        ({
            let v = in_order(c).vtables;
            v[a].offset < v[b].offset || (v[a].offset == v[b].offset && v[a].rva <= v[b].rva)
        }),
{
    table::queued_rows(vtable_keys(c.vtables), c.vtables, 0);
    table::sorting_is_stable(vtable_keys(c.vtables), c.vtables, a, b);
}

} // verus!
