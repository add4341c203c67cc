//! Per-function data-flow analysis.
//!
//! Every function is decoded once and a tiny abstract interpreter tracks what
//! each general purpose register holds (`this`, `this + k`, a constant, a
//! fresh heap allocation, a vtable address, ...). From that we collect facts:
//! field accesses relative to `this`, vtable stores (constructors and
//! destructors), allocation sizes, global references and call arguments.

use vstd::prelude::*;

use crate::insn;
use crate::insn::{Insn, MemSize};
use crate::interp;
use crate::interp::{Span, State, StateV};
use crate::pe::{Pe, PeV, RuntimeFunction};
use crate::table;
use crate::table::{Key, Ordered, Table};

verus! {

/// Largest object offset we are willing to believe.
pub const MAX_OBJ: i64 = 0x80000;

/// Largest allocation we are willing to believe.
pub const MAX_ALLOC: u64 = 0x100000;

/// What a register holds.
#[derive(Clone, Copy, Debug, PartialEq, Eq, Structural)]
pub enum Val {
    Unk,
    /// `this + k`
    This(i32),
    /// Second argument (edx/rdx) as passed on entry.
    Arg1,
    Const(u64),
    /// Address of something in the image (lea reg, [rip+x]).
    Addr(u32),
    /// Value loaded from a global (mov reg, [rip+x]).
    Glob(u32),
    /// Return value of a call that looked like `alloc(size)`, plus offset.
    Alloc(u32, i32),
    /// Pointer loaded from `[this + k]`.
    FieldPtr(i32),
}

impl DeepView for Val {
    type V = Val;

    open spec fn deep_view(&self) -> Val {
        *self
    }
}

#[derive(Clone, Copy, Debug, PartialEq, Eq, Hash, PartialOrd, Ord, Structural)]
pub enum Access {
    Read,
    Write,
    Addr,
}

#[derive(Clone, Copy, Debug, PartialEq, Eq, Hash, PartialOrd, Ord, Structural)]
pub enum VType {
    Unknown,
    I8,
    I16,
    I32,
    I64,
    F32,
    F64,
    V128,
    V256,
}

impl VType {
    /// The type that an access of a memory size suggests.
    pub open spec fn of(ms: MemSize) -> VType {
        if ms.code == insn::SIZE_FLOAT32 {
            VType::F32
        } else if ms.code == insn::SIZE_FLOAT64 {
            VType::F64
        } else if ms.code == insn::SIZE_UINT8 || ms.code == insn::SIZE_INT8 {
            VType::I8
        } else if ms.code == insn::SIZE_UINT16 || ms.code == insn::SIZE_INT16 {
            VType::I16
        } else if ms.code == insn::SIZE_UINT32 || ms.code == insn::SIZE_INT32 || ms.code == insn::SIZE_DWORD_OFFSET {
            VType::I32
        } else if ms.code == insn::SIZE_UINT64 || ms.code == insn::SIZE_INT64 || ms.code == insn::SIZE_QWORD_OFFSET {
            VType::I64
        } else if ms.bytes == 1 {
            VType::I8
        } else if ms.bytes == 2 {
            VType::I16
        } else if ms.bytes == 4 && ms.packed {
            VType::F32
        } else if ms.bytes == 4 {
            VType::I32
        } else if ms.bytes == 8 {
            VType::I64
        } else if ms.bytes == 16 {
            VType::V128
        } else if ms.bytes == 32 {
            VType::V256
        } else {
            VType::Unknown
        }
    }

    pub fn from_mem(ms: MemSize) -> (r: VType)
        ensures
            r == VType::of(ms),
    {
        if ms.code == insn::SIZE_FLOAT32 {
            VType::F32
        } else if ms.code == insn::SIZE_FLOAT64 {
            VType::F64
        } else if ms.code == insn::SIZE_UINT8 || ms.code == insn::SIZE_INT8 {
            VType::I8
        } else if ms.code == insn::SIZE_UINT16 || ms.code == insn::SIZE_INT16 {
            VType::I16
        } else if ms.code == insn::SIZE_UINT32 || ms.code == insn::SIZE_INT32 || ms.code == insn::SIZE_DWORD_OFFSET {
            VType::I32
        } else if ms.code == insn::SIZE_UINT64 || ms.code == insn::SIZE_INT64 || ms.code == insn::SIZE_QWORD_OFFSET {
            VType::I64
        } else {
            match ms.bytes {
                1 => VType::I8,
                2 => VType::I16,
                4 => if ms.packed {
                    VType::F32
                } else {
                    VType::I32
                },
                8 => VType::I64,
                16 => VType::V128,
                32 => VType::V256,
                _ => VType::Unknown,
            }
        }
    }

    pub open spec fn text(self) -> Seq<char> {
        match self {
            VType::Unknown => "?"@,
            VType::I8 => "i8"@,
            VType::I16 => "i16"@,
            VType::I32 => "i32"@,
            VType::I64 => "i64"@,
            VType::F32 => "f32"@,
            VType::F64 => "f64"@,
            VType::V128 => "v128"@,
            VType::V256 => "v256"@,
        }
    }

    pub fn label(self) -> (r: &'static str)
        ensures
            r@ == self.text(),
    {
        match self {
            VType::Unknown => "?",
            VType::I8 => "i8",
            VType::I16 => "i16",
            VType::I32 => "i32",
            VType::I64 => "i64",
            VType::F32 => "f32",
            VType::F64 => "f64",
            VType::V128 => "v128",
            VType::V256 => "v256",
        }
    }

    /// Position in the order of types.
    pub open spec fn place(self) -> int {
        match self {
            VType::Unknown => 0,
            VType::I8 => 1,
            VType::I16 => 2,
            VType::I32 => 3,
            VType::I64 => 4,
            VType::F32 => 5,
            VType::F64 => 6,
            VType::V128 => 7,
            VType::V256 => 8,
        }
    }

    fn index(self) -> (r: u8)
        ensures
            r == self.place(),
    {
        match self {
            VType::Unknown => 0,
            VType::I8 => 1,
            VType::I16 => 2,
            VType::I32 => 3,
            VType::I64 => 4,
            VType::F32 => 5,
            VType::F64 => 6,
            VType::V128 => 7,
            VType::V256 => 8,
        }
    }
}

impl Ordered for VType {
    open spec fn before(self, other: Self) -> bool {
        self.place() < other.place()
    }

    proof fn irreflexive(a: Self) {
    }

    proof fn transitive(a: Self, b: Self, c: Self) {
    }

    proof fn total(a: Self, b: Self) {
    }
}

impl Key for VType {
    type O = VType;

    open spec fn key(&self) -> VType {
        *self
    }

    fn is_before(&self, other: &Self) -> (r: bool) {
        self.index() < other.index()
    }
}

#[derive(Clone, Copy, Debug, PartialEq, Eq, Structural)]
pub struct FieldAccess {
    pub site: u32,
    pub off: i32,
    pub size: u8,
    pub ty: VType,
    pub kind: Access,
    pub indexed: bool,
}

#[derive(Clone, Copy, Debug, PartialEq, Eq, Hash, PartialOrd, Ord, Structural)]
pub enum Target {
    Direct(u32),
    Import(u32),
    /// Virtual call through `this`'s own vtable: slot index.
    VirtualThis(u32),
    Indirect,
}

impl Target {
    /// Position in the order of targets: the kind, then the address.
    pub open spec fn place(self) -> (int, int) {
        match self {
            Target::Direct(a) => (0, a as int),
            Target::Import(a) => (1, a as int),
            Target::VirtualThis(a) => (2, a as int),
            Target::Indirect => (3, 0),
        }
    }

    fn index(self) -> (r: (u8, u32))
        ensures
            (r.0 as int, r.1 as int) == self.place(),
    {
        match self {
            Target::Direct(a) => (0, a),
            Target::Import(a) => (1, a),
            Target::VirtualThis(a) => (2, a),
            Target::Indirect => (3, 0),
        }
    }
}

impl Ordered for Target {
    open spec fn before(self, other: Self) -> bool {
        self.place().0 < other.place().0 || (self.place().0 == other.place().0 && self.place().1 < other.place().1)
    }

    proof fn irreflexive(a: Self) {
    }

    proof fn transitive(a: Self, b: Self, c: Self) {
    }

    proof fn total(a: Self, b: Self) {
    }
}

impl Key for Target {
    type O = Target;

    open spec fn key(&self) -> Target {
        *self
    }

    fn is_before(&self, other: &Self) -> (r: bool) {
        let a = self.index();
        let b = other.index();
        a.0 < b.0 || (a.0 == b.0 && a.1 < b.1)
    }
}

#[derive(Clone, Copy, Debug)]
pub struct CallSite {
    pub site: u32,
    pub target: Target,
    pub rcx: Val,
    pub rdx: Val,
    pub tail: bool,
}

#[derive(Clone, Copy, Debug)]
pub struct RipRef {
    pub site: u32,
    pub target: u32,
    pub kind: Access,
    pub size: u8,
    pub ty: VType,
}

#[derive(Clone, Copy, Debug)]
pub struct VtStore {
    pub site: u32,
    pub vt: u32,
    pub dst: Val,
}

#[derive(Clone, Copy, Debug)]
pub struct GlobalStore {
    pub site: u32,
    pub global: u32,
    pub val: Val,
}

#[derive(Clone, Copy, Debug)]
pub struct Allocation {
    pub site: u32,
    pub size: u64,
    pub allocator: u32,
}

#[derive(Clone, Copy, Debug, PartialEq, Eq, Structural)]
pub enum Trivial {
    Nop,
    ReturnConst(u64),
    Getter { off: i32, size: u8, ty: VType },
    RefGetter { off: i32 },
    Setter { off: i32, size: u8, ty: VType },
    Jump(Target),
    AdjustThunk { delta: i32, target: u32 },
}

#[derive(Debug)]
pub struct FuncFacts {
    pub start: u32,
    pub end: u32,
    pub insns: u32,
    pub calls: Vec<CallSite>,
    pub rip_refs: Vec<RipRef>,
    pub fields: Vec<FieldAccess>,
    pub vt_stores: Vec<VtStore>,
    pub global_stores: Vec<GlobalStore>,
    pub allocs: Vec<Allocation>,
    pub ptr_fields: Vec<i32>,
    /// Field accesses through a fresh allocation (inlined constructors).
    pub alloc_fields: Vec<(u32, FieldAccess)>,
    pub trivial: Option<Trivial>,
    pub tests_arg_bit: bool,
    /// Incoming rcx is read (or passed on) before being overwritten.
    pub uses_this: bool,
}

/// Model of the facts about a function.
pub ghost struct FuncFactsV {
    pub start: u32,
    pub end: u32,
    pub insns: u32,
    pub calls: Seq<CallSite>,
    pub rip_refs: Seq<RipRef>,
    pub fields: Seq<FieldAccess>,
    pub vt_stores: Seq<VtStore>,
    pub global_stores: Seq<GlobalStore>,
    pub allocs: Seq<Allocation>,
    pub ptr_fields: Seq<i32>,
    pub alloc_fields: Seq<(u32, FieldAccess)>,
    pub trivial: Option<Trivial>,
    pub tests_arg_bit: bool,
    pub uses_this: bool,
}

impl DeepView for FuncFacts {
    type V = FuncFactsV;

    open spec fn deep_view(&self) -> FuncFactsV {
        FuncFactsV {
            start: self.start,
            end: self.end,
            insns: self.insns,
            calls: self.calls@,
            rip_refs: self.rip_refs@,
            fields: self.fields@,
            vt_stores: self.vt_stores@,
            global_stores: self.global_stores@,
            allocs: self.allocs@,
            ptr_fields: self.ptr_fields@,
            alloc_fields: self.alloc_fields@,
            trivial: self.trivial,
            tests_arg_bit: self.tests_arg_bit,
            uses_this: self.uses_this,
        }
    }
}

impl FuncFactsV {
    /// No facts yet about the function at `start`.
    pub open spec fn blank(start: u32, end: u32) -> FuncFactsV {
        FuncFactsV {
            start,
            end,
            insns: 0,
            calls: Seq::empty(),
            rip_refs: Seq::empty(),
            fields: Seq::empty(),
            vt_stores: Seq::empty(),
            global_stores: Seq::empty(),
            allocs: Seq::empty(),
            ptr_fields: Seq::empty(),
            alloc_fields: Seq::empty(),
            trivial: None,
            tests_arg_bit: false,
            uses_this: false,
        }
    }
}

impl FuncFacts {
    pub(crate) fn blank(start: u32, end: u32) -> (r: FuncFacts)
        ensures
            r.deep_view() == FuncFactsV::blank(start, end),
    {
        FuncFacts {
            start,
            end,
            insns: 0,
            calls: Vec::new(),
            rip_refs: Vec::new(),
            fields: Vec::new(),
            vt_stores: Vec::new(),
            global_stores: Vec::new(),
            allocs: Vec::new(),
            ptr_fields: Vec::new(),
            alloc_fields: Vec::new(),
            trivial: None,
            tests_arg_bit: false,
            uses_this: false,
        }
    }
}

// ---------------------------------------------------------------------------
// Values and register files.

/// A value that is worth keeping over a null pointer.
pub open spec fn is_object(v: Val) -> bool {
    v is Alloc || v is This
}

/// What a register holds where two paths meet: what both agree on; an object
/// or null counts as the object.
pub open spec fn merged(a: Val, b: Val) -> Val {
    if a == b {
        a
    } else if a == Val::Const(0) && is_object(b) {
        b
    } else if b == Val::Const(0) && is_object(a) {
        a
    } else {
        Val::Unk
    }
}

pub fn merge(a: Val, b: Val) -> (r: Val)
    ensures
        r == merged(a, b),
{
    if a == b {
        return a;
    }
    match (a, b) {
        (Val::Const(0), Val::Alloc(_, _)) => b,
        (Val::Const(0), Val::This(_)) => b,
        (Val::Alloc(_, _), Val::Const(0)) => a,
        (Val::This(_), Val::Const(0)) => a,
        _ => Val::Unk,
    }
}

/// Joining two paths does not depend on which came first.
pub proof fn merge_commutes(a: Val, b: Val)
    ensures
        merged(a, b) == merged(b, a),
{
}

/// Joining a path with itself changes nothing.
pub proof fn merge_idempotent(a: Val)
    ensures
        merged(a, a) == a,
{
}

/// A register that a call does not preserve.
pub open spec fn volatile(i: int) -> bool {
    i == 0 || i == 1 || i == 2 || i == 8 || i == 9 || i == 10 || i == 11
}

/// The registers after a call.
pub open spec fn clobbered(regs: Seq<Val>) -> Seq<Val> {
    Seq::new(
        regs.len(),
        |i: int|
            if volatile(i) {
                Val::Unk
            } else {
                regs[i]
            },
    )
}

/// The registers where two paths meet.
pub open spec fn merged_regs(a: Seq<Val>, b: Seq<Val>) -> Seq<Val> {
    Seq::new(a.len(), |i: int| merged(a[i], b[i]))
}

pub(crate) fn clobber(regs: &mut Vec<Val>)
    requires
        old(regs)@.len() == 16,
    ensures
        final(regs)@ == clobbered(old(regs)@),
{
    regs.set(0, Val::Unk);
    regs.set(1, Val::Unk);
    regs.set(2, Val::Unk);
    regs.set(8, Val::Unk);
    regs.set(9, Val::Unk);
    regs.set(10, Val::Unk);
    regs.set(11, Val::Unk);
    assert(regs@ =~= clobbered(old(regs)@));
}

pub(crate) fn merge_regs(a: &Vec<Val>, b: &Vec<Val>) -> (r: Vec<Val>)
    requires
        a@.len() == 16,
        b@.len() == 16,
    ensures
        r@ == merged_regs(a@, b@),
{
    let mut out: Vec<Val> = Vec::new();
    let mut i: usize = 0;
    while i < 16
        invariant
            a@.len() == 16,
            b@.len() == 16,
            i <= 16,
            out@.len() == i,
            forall|k: int| 0 <= k < i ==> #[trigger] out@[k] == merged(a@[k], b@[k]),
        decreases 16 - i,
    {
        out.push(merge(a[i], b[i]));
        i += 1;
    }
    assert(out@ =~= merged_regs(a@, b@));
    out
}

// ---------------------------------------------------------------------------
// Code of a module.

pub struct Code<'a> {
    pub pe: &'a Pe,
    /// RVAs of the vtables.
    pub vtables: &'a Table<u32, ()>,
    /// Known function starts.
    pub starts: &'a Table<u32, ()>,
    /// End of each function of the function table, by its start.
    pub pdata_end: &'a Table<u32, u32>,
}

/// Model of the code of a module.
pub ghost struct CodeV {
    pub pe: PeV,
    pub vtables: Seq<(u32, ())>,
    pub starts: Seq<(u32, ())>,
    pub pdata_end: Seq<(u32, u32)>,
}

impl<'a> DeepView for Code<'a> {
    type V = CodeV;

    open spec fn deep_view(&self) -> CodeV {
        CodeV {
            pe: self.pe.deep_view(),
            vtables: self.vtables.deep_view(),
            starts: self.starts.deep_view(),
            pdata_end: self.pdata_end.deep_view(),
        }
    }
}

/// What one instruction does to a sweep over a function: the end of the
/// function if it ends here, and the furthest forward branch seen so far.
pub open spec fn swept(ins: Insn, base: u64, cap: u32, max_t: u32) -> (Option<u32>, u32) {
    let next = ins.next().wrapping_sub(base) as u32;
    let flow = ins.head.flow;
    if flow == insn::FLOW_CONDITIONAL_BRANCH || flow == insn::FLOW_UNCONDITIONAL_BRANCH {
        let t = ins.head.target.wrapping_sub(base) as u32;
        let far = if t > next && t < cap && t > max_t {
            t
        } else {
            max_t
        };
        if flow == insn::FLOW_UNCONDITIONAL_BRANCH && next > far {
            (Some(next), far)
        } else {
            (None, far)
        }
    } else if (flow == insn::FLOW_RETURN || flow == insn::FLOW_INDIRECT_BRANCH || flow == insn::FLOW_INTERRUPT || flow
        == insn::FLOW_EXCEPTION) && next > max_t {
        (Some(next), max_t)
    } else {
        (None, max_t)
    }
}

pub fn sweep_step(ins: &Insn, base: u64, cap: u32, max_t: u32) -> (r: (Option<u32>, u32))
    ensures
        r == swept(*ins, base, cap, max_t),
{
    let next = ins.next_ip().wrapping_sub(base) as u32;
    let flow = ins.head.flow;
    if flow == insn::FLOW_CONDITIONAL_BRANCH || flow == insn::FLOW_UNCONDITIONAL_BRANCH {
        let t = ins.head.target.wrapping_sub(base) as u32;
        let far = if t > next && t < cap && t > max_t { t } else { max_t };
        if flow == insn::FLOW_UNCONDITIONAL_BRANCH && next > far {
            (Some(next), far)
        } else {
            (None, far)
        }
    } else if (flow == insn::FLOW_RETURN || flow == insn::FLOW_INDIRECT_BRANCH || flow == insn::FLOW_INTERRUPT || flow
        == insn::FLOW_EXCEPTION) && next > max_t {
        (Some(next), max_t)
    } else {
        (None, max_t)
    }
}

/// Where a sweep over `bytes` at address `va` ends, from `pos` on.
pub open spec fn sweep_end(bytes: Seq<u8>, va: u64, base: u64, cap: u32, pos: int, max_t: u32) -> u32
    decreases bytes.len() - pos,
{
    if pos < 0 || pos >= bytes.len() {
        cap
    } else {
        let ins = insn::insn(bytes.skip(pos), va.wrapping_add(pos as u64));
        let (end, far) = swept(ins, base, cap, max_t);
        if ins.head.invalid {
            ins.ip.wrapping_sub(base) as u32
        } else if end is Some {
            end.unwrap()
        } else if ins.head.len == 0 || pos + ins.head.len > bytes.len() {
            cap
        } else {
            sweep_end(bytes, va, base, cap, pos + ins.head.len, far)
        }
    }
}

/// The import slot that an instruction jumps through, if that is what it does:
/// the slot, or the address of the next stub.
pub enum Stub {
    Slot(u32),
    Next(u32),
    Other,
}

/// What an instruction is as the first of a stub.
pub open spec fn stub(pe: PeV, ins: Insn) -> Stub {
    if ins.head.flow == insn::FLOW_INDIRECT_BRANCH && ins.mem.ip_rel {
        match pe.va_to_rva(ins.mem.ip_rel_addr) {
            Some(slot) => if pe.import_at_iat(slot) is Some {
                Stub::Slot(slot)
            } else {
                Stub::Other
            },
            None => Stub::Other,
        }
    } else if ins.head.flow == insn::FLOW_UNCONDITIONAL_BRANCH {
        match pe.va_to_rva(ins.head.target) {
            Some(t) => Stub::Next(t),
            None => Stub::Other,
        }
    } else {
        Stub::Other
    }
}

pub fn stub_of(pe: &Pe, ins: &Insn) -> (r: Stub)
    ensures
        r == stub(pe.deep_view(), *ins),
{
    if ins.head.flow == insn::FLOW_INDIRECT_BRANCH && ins.mem.ip_rel {
        match pe.va_to_rva(ins.mem.ip_rel_addr) {
            Some(slot) => if pe.import_at_iat(slot).is_some() {
                Stub::Slot(slot)
            } else {
                Stub::Other
            },
            None => Stub::Other,
        }
    } else if ins.head.flow == insn::FLOW_UNCONDITIONAL_BRANCH {
        match pe.va_to_rva(ins.head.target) {
            Some(t) => Stub::Next(t),
            None => Stub::Other,
        }
    } else {
        Stub::Other
    }
}

/// The instruction at an address of an image, if it is one.
pub open spec fn insn_at(pe: PeV, rva: u32) -> Option<Insn> {
    let ins = insn::insn(pe.bytes(rva, 16), pe.rva_to_va(rva));
    if ins.head.invalid {
        None
    } else {
        Some(ins)
    }
}

pub fn decode_at(pe: &Pe, rva: u32) -> (r: Option<Insn>)
    ensures
        r == insn_at(pe.deep_view(), rva),
{
    let ins = insn::decode(pe.bytes(rva, 16), pe.rva_to_va(rva));
    if ins.head.invalid {
        None
    } else {
        Some(ins)
    }
}

impl CodeV {
    /// The instruction at an address, if it is one.
    pub open spec fn one(self, rva: u32) -> Option<Insn> {
        insn_at(self.pe, rva)
    }

    /// The import slot reached from `rva` over at most `n` stubs.
    pub open spec fn thunk_within(self, rva: u32, n: nat) -> Option<u32>
        decreases n,
    {
        if n == 0 {
            None
        } else {
            match self.one(rva) {
                None => None,
                Some(ins) => match stub(self.pe, ins) {
                    Stub::Slot(slot) => Some(slot),
                    Stub::Next(t) => self.thunk_within(t, (n - 1) as nat),
                    Stub::Other => None,
                },
            }
        }
    }

    pub open spec fn import_thunk(self, rva: u32) -> Option<u32> {
        self.thunk_within(rva, 3)
    }

    pub open spec fn resolve_direct(self, rva: u32) -> Target {
        match self.import_thunk(rva) {
            Some(slot) => Target::Import(slot),
            None => Target::Direct(rva),
        }
    }

    /// The first known start behind `start`, or the last address.
    pub open spec fn next_start(self, start: u32) -> u32 {
        let r = table::rank(self.starts, start.wrapping_add(1));
        if r < self.starts.len() {
            self.starts[r].0
        } else {
            u32::MAX
        }
    }

    /// The next start behind `start` is the first of them.
    proof fn next_start_is_first(self, start: u32, other: u32)
        requires
            start < other,
            table::holds(self.starts, other),
        ensures
            start < self.next_start(start) <= other,
    {
        let key = (start + 1) as u32;
        table::rank_bounds(self.starts, key, 0);
        table::rank_bounds(self.starts, other, 0);
    }

    /// Furthest address a sweep from `start` may reach.
    pub open spec fn cap(self, start: u32) -> u32 {
        let window = start.wrapping_add(0x2000);
        let next = self.next_start(start);
        if window <= next {
            window
        } else {
            next
        }
    }

    /// The end of the function at `start`.
    pub open spec fn extent(self, start: u32) -> u32 {
        match table::get(self.pdata_end, start) {
            Some(end) => end,
            None => {
                let cap = self.cap(start);
                sweep_end(
                    self.pe.bytes(start, cap.wrapping_sub(start) as int),
                    self.pe.rva_to_va(start),
                    self.pe.image_base,
                    cap,
                    0,
                    start,
                )
            },
        }
    }
}

impl<'a> Code<'a> {
    pub fn decode_one(&self, rva: u32) -> (r: Option<Insn>)
        ensures
            r == self.deep_view().one(rva),
    {
        decode_at(self.pe, rva)
    }

    /// If `rva` is `jmp [rip+IAT]` (optionally behind `jmp rel32` stubs),
    /// return the IAT slot.
    pub fn import_thunk(&self, rva: u32) -> (r: Option<u32>)
        ensures
            r == self.deep_view().import_thunk(rva),
    {
        let mut cur = rva;
        let mut n: usize = 3;
        while n > 0
            invariant
                self.deep_view().import_thunk(rva) == self.deep_view().thunk_within(cur, n as nat),
            decreases n,
        {
            let ins = match self.decode_one(cur) {
                Some(i) => i,
                None => {
                    return None;
                },
            };
            match stub_of(self.pe, &ins) {
                Stub::Slot(slot) => {
                    return Some(slot);
                },
                Stub::Next(t) => {
                    cur = t;
                },
                Stub::Other => {
                    return None;
                },
            }
            n -= 1;
        }
        None
    }

    pub fn resolve_direct(&self, rva: u32) -> (r: Target)
        ensures
            r == self.deep_view().resolve_direct(rva),
    {
        match self.import_thunk(rva) {
            Some(slot) => Target::Import(slot),
            None => Target::Direct(rva),
        }
    }

    /// Function extent: the function table when available, otherwise a linear
    /// sweep that follows forward branches until an unconditional exit.
    /// A sweep stays within 0x2000 bytes and ends at the next known start.
    pub fn extent(&self, start: u32) -> (r: u32)
        ensures
            r == self.deep_view().extent(start),
            table::get(self.deep_view().pdata_end, start) is None && start + 0x2000 <= u32::MAX ==> start <= r <= start + 0x2000,
            forall|other: u32|
                table::get(self.deep_view().pdata_end, start) is None && start + 0x2000 <= u32::MAX && start < other
                    && #[trigger] table::holds(self.deep_view().starts, other) ==> r <= other,
    {
        if let Some(end) = self.pdata_end.get(&start) {
            return *end;
        }
        let k = self.starts.position(&start.wrapping_add(1));
        let next = if k < self.starts.len() { *self.starts.key_at(k) } else { u32::MAX };
        let window = start.wrapping_add(0x2000);
        let cap = if window <= next { window } else { next };
        let bytes = self.pe.bytes(start, cap.wrapping_sub(start) as usize);
        let va = self.pe.rva_to_va(start);
        let base = self.pe.image_base;
        let mut max_t = start;
        let mut pos: usize = 0;
        let ghost c = self.deep_view();
        let ghost room = start + 0x2000 <= u32::MAX;
        assert(cap == c.cap(start));
        proof {
            if room {
                table::rank_bounds(c.starts, (start + 1) as u32, 0);
                assert forall|other: u32| start < other && #[trigger] table::holds(c.starts, other) implies cap <= other by {
                    c.next_start_is_first(start, other);
                }
            }
        }
        while pos < bytes.len()
            invariant
                c == self.deep_view(),
                room ==> start < cap <= start + 0x2000 && bytes@.len() <= cap - start,
                forall|other: u32| room && start < other && #[trigger] table::holds(c.starts, other) ==> cap <= other,
                room == (start + 0x2000 <= u32::MAX),
                pos <= bytes@.len(),
                va == base.wrapping_add(start as u64),
                base == c.pe.image_base,
                va == c.pe.rva_to_va(start),
                c.extent(start) == sweep_end(bytes@, va, base, cap, pos as int, max_t),
            decreases bytes@.len() - pos,
        {
            let rest = vstd::slice::slice_subrange(bytes, pos, bytes.len());
            assert(rest@ =~= bytes@.skip(pos as int));
            let ins = insn::decode(rest, va.wrapping_add(pos as u64));
            assert(room ==> ins.ip.wrapping_sub(base) == start + pos && ins.next().wrapping_sub(base) == start + pos + ins.head.len);
            if ins.head.invalid {
                return ins.ip.wrapping_sub(base) as u32;
            }
            let (end, far) = sweep_step(&ins, base, cap, max_t);
            if let Some(e) = end {
                return e;
            }
            max_t = far;
            pos += ins.head.len as usize;
        }
        cap
    }
}

// ---------------------------------------------------------------------------
// One function.

/// The interpreter after the instructions of `bytes` from `pos` on.
pub open spec fn run(c: CodeV, bytes: Seq<u8>, va: u64, span: Span, pos: int, st: StateV) -> StateV
    decreases bytes.len() - pos,
{
    if pos < 0 || pos >= bytes.len() {
        st
    } else {
        let rest = bytes.skip(pos);
        let ip = va.wrapping_add(pos as u64);
        let ins = insn::insn(rest, ip);
        if ins.head.invalid {
            st
        } else {
            let next = interp::stepped(st, c, ins, insn::regs_of(rest, ip), insn::mems_of(rest, ip), span);
            if ins.head.len == 0 || pos + ins.head.len > bytes.len() {
                next
            } else {
                run(c, bytes, va, span, pos + ins.head.len, next)
            }
        }
    }
}

/// The memory operand is `[rcx + d]`.
pub open spec fn on_rcx(i: Insn) -> bool {
    i.mem.base == insn::REG_RCX && i.mem.index == insn::REG_NONE
}

fn is_on_rcx(i: &Insn) -> (r: bool)
    ensures
        r == on_rcx(*i),
{
    i.mem.base == insn::REG_RCX && i.mem.index == insn::REG_NONE
}

/// Second argument register in any width, or xmm1.
pub open spec fn is_arg_reg(r: u32) -> bool {
    r == insn::REG_DL || r == insn::REG_DX || r == insn::REG_EDX || r == insn::REG_RDX || r == insn::REG_XMM1
}

/// The argument that a register carries, counted from one.
pub fn arg_reg_index(r: u32) -> (n: Option<u8>)
    ensures
        n == if is_arg_reg(r) {
            Some(2u8)
        } else {
            None
        },
{
    if r == insn::REG_DL || r == insn::REG_DX || r == insn::REG_EDX || r == insn::REG_RDX || r == insn::REG_XMM1 {
        Some(2)
    } else {
        None
    }
}

/// The getter that reads the memory operand of an instruction.
pub open spec fn getter(i: Insn) -> Trivial {
    Trivial::Getter { off: i.mem.disp as i32, size: i.mem.size.bytes as u8, ty: VType::of(i.mem.size) }
}

fn getter_of(i: &Insn) -> (r: Trivial)
    ensures
        r == getter(*i),
{
    Trivial::Getter { off: i.mem.disp as i32, size: i.mem.size.bytes as u8, ty: VType::from_mem(i.mem.size) }
}

/// An instruction that loads a register from `[rcx + d]`.
pub open spec fn loads_field(i: Insn) -> bool {
    i.head.op_count == 2 && i.op1.kind == insn::KIND_MEMORY && on_rcx(i) && i.op0.kind == insn::KIND_REGISTER
}

fn is_field_load(i: &Insn) -> (r: bool)
    ensures
        r == loads_field(*i),
{
    i.head.op_count == 2 && i.op1.kind == insn::KIND_MEMORY && is_on_rcx(i) && i.op0.kind == insn::KIND_REGISTER
}

/// A body of one instruction.
pub open spec fn trivial_one(c: CodeV, i: Insn) -> Option<Trivial> {
    if i.head.flow == insn::FLOW_RETURN {
        Some(Trivial::Nop)
    } else if i.head.flow == insn::FLOW_UNCONDITIONAL_BRANCH {
        match c.pe.va_to_rva(i.head.target) {
            Some(t) => Some(Trivial::Jump(c.resolve_direct(t))),
            None => None,
        }
    } else if i.head.flow == insn::FLOW_INDIRECT_BRANCH && i.mem.ip_rel {
        match interp::import_slot(c.pe, i.mem.ip_rel_addr) {
            Some(s) => Some(Trivial::Jump(Target::Import(s))),
            None => None,
        }
    } else {
        None
    }
}

fn classify_one(c: &Code, i: &Insn) -> (r: Option<Trivial>)
    ensures
        r == trivial_one(c.deep_view(), *i),
{
    if i.head.flow == insn::FLOW_RETURN {
        Some(Trivial::Nop)
    } else if i.head.flow == insn::FLOW_UNCONDITIONAL_BRANCH {
        match c.pe.va_to_rva(i.head.target) {
            Some(t) => Some(Trivial::Jump(c.resolve_direct(t))),
            None => None,
        }
    } else if i.head.flow == insn::FLOW_INDIRECT_BRANCH && i.mem.ip_rel {
        match interp::slot_at(c.pe, i.mem.ip_rel_addr) {
            Some(s) => Some(Trivial::Jump(Target::Import(s))),
            None => None,
        }
    } else {
        None
    }
}

/// What an instruction adds to rcx.
pub open spec fn this_delta(a: Insn) -> Option<i64> {
    if a.head.mnemonic == insn::MNEM_SUB {
        match a.imm() {
            Some(v) => Some(0i64.wrapping_sub(v as i64)),
            None => None,
        }
    } else if a.head.mnemonic == insn::MNEM_ADD {
        match a.imm() {
            Some(v) => Some(v as i64),
            None => None,
        }
    } else if a.head.mnemonic == insn::MNEM_LEA && on_rcx(a) {
        Some(a.mem.disp as i64)
    } else {
        None
    }
}

fn delta_of(a: &Insn) -> (r: Option<i64>)
    ensures
        r == this_delta(*a),
{
    if a.head.mnemonic == insn::MNEM_SUB {
        match insn::imm_value(a) {
            Some(v) => Some(0i64.wrapping_sub(v as i64)),
            None => None,
        }
    } else if a.head.mnemonic == insn::MNEM_ADD {
        match insn::imm_value(a) {
            Some(v) => Some(v as i64),
            None => None,
        }
    } else if a.head.mnemonic == insn::MNEM_LEA && is_on_rcx(a) {
        Some(a.mem.disp as i64)
    } else {
        None
    }
}

/// This-adjusting thunk: sub/add rcx, imm ; jmp target
pub open spec fn thunk(c: CodeV, a: Insn, last: Insn) -> Option<Trivial> {
    if last.head.flow == insn::FLOW_UNCONDITIONAL_BRANCH && a.op0.kind == insn::KIND_REGISTER && a.op0.reg == insn::REG_RCX {
        match (this_delta(a), c.pe.va_to_rva(last.head.target)) {
            (Some(d), Some(t)) => Some(Trivial::AdjustThunk { delta: d as i32, target: t }),
            _ => None,
        }
    } else {
        None
    }
}

/// A body of one instruction and a return.
pub open spec fn trivial_return(a: Insn) -> Option<Trivial> {
    let mnem = a.head.mnemonic;
    if mnem == insn::MNEM_XOR && a.op0.kind == insn::KIND_REGISTER && a.op1.kind == insn::KIND_REGISTER && a.op0.reg
        == a.op1.reg {
        Some(Trivial::ReturnConst(0))
    } else if mnem == insn::MNEM_MOV && a.op0.kind == insn::KIND_REGISTER && insn::gpr_number(a.op0.reg) == Some(0int)
        && a.imm() is Some {
        Some(Trivial::ReturnConst(a.imm().unwrap()))
    } else if mnem == insn::MNEM_LEA && a.op0.reg == insn::REG_RAX && on_rcx(a) {
        Some(Trivial::RefGetter { off: a.mem.disp as i32 })
    } else if loads_field(a) && (insn::gpr_number(a.op0.reg) == Some(0int) || a.op0.reg == insn::REG_XMM0) {
        Some(getter(a))
    } else if a.head.op_count == 2 && a.op0.kind == insn::KIND_MEMORY && on_rcx(a) && a.op1.kind == insn::KIND_REGISTER
        && is_arg_reg(a.op1.reg) {
        Some(
            Trivial::Setter { off: a.mem.disp as i32, size: a.mem.size.bytes as u8, ty: VType::of(a.mem.size) },
        )
    } else {
        None
    }
}

fn classify_return(a: &Insn) -> (r: Option<Trivial>)
    ensures
        r == trivial_return(*a),
{
    let mnem = a.head.mnemonic;
    if mnem == insn::MNEM_XOR && a.op0.kind == insn::KIND_REGISTER && a.op1.kind == insn::KIND_REGISTER && a.op0.reg
        == a.op1.reg {
        return Some(Trivial::ReturnConst(0));
    }
    if mnem == insn::MNEM_MOV && a.op0.kind == insn::KIND_REGISTER && insn::gpr(a.op0.reg) == Some(0usize) {
        if let Some(v) = insn::imm_value(a) {
            return Some(Trivial::ReturnConst(v));
        }
    }
    if mnem == insn::MNEM_LEA && a.op0.reg == insn::REG_RAX && is_on_rcx(a) {
        return Some(Trivial::RefGetter { off: a.mem.disp as i32 });
    }
    if is_field_load(a) && (insn::gpr(a.op0.reg) == Some(0usize) || a.op0.reg == insn::REG_XMM0) {
        return Some(getter_of(a));
    }
    if a.head.op_count == 2 && a.op0.kind == insn::KIND_MEMORY && is_on_rcx(a) && a.op1.kind == insn::KIND_REGISTER
        && arg_reg_index(a.op1.reg).is_some() {
        return Some(
            Trivial::Setter {
                off: a.mem.disp as i32,
                size: a.mem.size.bytes as u8,
                ty: VType::from_mem(a.mem.size),
            },
        );
    }
    None
}

/// One of the instructions behind the first stores to `[rdx]`.
pub open spec fn stores_to_rdx(ins: Seq<Insn>) -> bool {
    exists|i: int|
        1 <= i < ins.len() && (#[trigger] ins[i]).op0.kind == insn::KIND_MEMORY && ins[i].mem.base == insn::REG_RDX
}

/// One of the instructions behind the first uses memory not based on rdx.
pub open spec fn other_memory(ins: Seq<Insn>) -> bool {
    exists|i: int| 1 <= i < ins.len() && (#[trigger] ins[i]).has_memory() && ins[i].mem.base != insn::REG_RDX
}

/// One of the instructions behind the first uses memory.
pub open spec fn any_memory(ins: Seq<Insn>) -> bool {
    exists|i: int| 1 <= i < ins.len() && (#[trigger] ins[i]).has_memory()
}

/// A body of three or four instructions that ends in a return: a struct
/// returned by value (load [rcx+d] -> reg, store reg -> [rdx], mov rax, rdx),
/// or a load, an operation on registers and the return.
pub open spec fn trivial_longer(ins: Seq<Insn>) -> Option<Trivial> {
    let a = ins[0];
    if loads_field(a) && stores_to_rdx(ins) && !other_memory(ins) {
        Some(getter(a))
    } else if loads_field(a) && insn::gpr_number(a.op0.reg) == Some(0int) && ins.len() == 3 && !any_memory(ins) {
        Some(getter(a))
    } else {
        None
    }
}

fn classify_longer(ins: &Vec<Insn>) -> (r: Option<Trivial>)
    requires
        ins@.len() > 0,
    ensures
        r == trivial_longer(ins@),
{
    let a = ins[0];
    if !is_field_load(&a) {
        return None;
    }
    let mut to_rdx = false;
    let mut other = false;
    let mut any = false;
    let mut i: usize = 1;
    while i < ins.len()
        invariant
            1 <= i <= ins@.len(),
            to_rdx == (exists|k: int|
                1 <= k < i && (#[trigger] ins@[k]).op0.kind == insn::KIND_MEMORY && ins@[k].mem.base == insn::REG_RDX),
            other == (exists|k: int| 1 <= k < i && (#[trigger] ins@[k]).has_memory() && ins@[k].mem.base != insn::REG_RDX),
            any == (exists|k: int| 1 <= k < i && (#[trigger] ins@[k]).has_memory()),
        decreases ins@.len() - i,
    {
        let x = ins[i];
        assert(x == ins@[i as int]);
        if x.op0.kind == insn::KIND_MEMORY && x.mem.base == insn::REG_RDX {
            to_rdx = true;
        }
        if x.uses_memory() {
            any = true;
            if x.mem.base != insn::REG_RDX {
                other = true;
            }
        }
        i += 1;
    }
    if to_rdx && !other {
        return Some(getter_of(&a));
    }
    if insn::gpr(a.op0.reg) == Some(0usize) && ins.len() == 3 && !any {
        return Some(getter_of(&a));
    }
    None
}

/// What a function whose whole body is `ins` does, where it is simple enough.
pub open spec fn trivial(c: CodeV, ins: Seq<Insn>) -> Option<Trivial> {
    if ins.len() == 0 {
        None
    } else {
        let last = ins.last();
        let is_ret = last.head.flow == insn::FLOW_RETURN;
        if ins.len() == 1 {
            trivial_one(c, last)
        } else if ins.len() == 2 {
            match thunk(c, ins[0], last) {
                Some(t) => Some(t),
                None => if is_ret {
                    trivial_return(ins[0])
                } else {
                    None
                },
            }
        } else if (ins.len() == 3 || ins.len() == 4) && is_ret {
            trivial_longer(ins)
        } else {
            None
        }
    }
}

pub fn classify_trivial(c: &Code, ins: &Vec<Insn>) -> (r: Option<Trivial>)
    ensures
        r == trivial(c.deep_view(), ins@),
{
    let n = ins.len();
    if n == 0 {
        return None;
    }
    let last = ins[n - 1];
    let is_ret = last.head.flow == insn::FLOW_RETURN;
    if n == 1 {
        return classify_one(c, &last);
    }
    if n == 2 {
        let a = ins[0];
        if last.head.flow == insn::FLOW_UNCONDITIONAL_BRANCH && a.op0.kind == insn::KIND_REGISTER && a.op0.reg
            == insn::REG_RCX {
            if let (Some(d), Some(t)) = (delta_of(&a), c.pe.va_to_rva(last.head.target)) {
                return Some(Trivial::AdjustThunk { delta: d as i32, target: t });
            }
        }
        if !is_ret {
            return None;
        }
        return classify_return(&a);
    }
    if (n == 3 || n == 4) && is_ret {
        return classify_longer(ins);
    }
    None
}

impl CodeV {
    /// The addresses of a function.
    pub open spec fn span(self, start: u32, end: u32) -> Span {
        Span {
            base: self.pe.image_base,
            start_va: self.pe.rva_to_va(start),
            end_va: self.pe.rva_to_va(end),
        }
    }

    /// The interpreter after the whole function at `start`.
    pub open spec fn final_state(self, start: u32) -> StateV {
        let end = self.extent(start);
        run(
            self,
            self.pe.bytes(start, end.wrapping_sub(start) as int),
            self.pe.rva_to_va(start),
            self.span(start, end),
            0,
            StateV::entry(start, end),
        )
    }

    /// The facts about the function at `start`.
    pub open spec fn analyze(self, start: u32) -> FuncFactsV {
        let st = self.final_state(start);
        FuncFactsV {
            trivial: if st.facts.insns <= st.small.len() {
                trivial(self, st.small)
            } else {
                st.facts.trivial
            },
            ..st.facts
        }
    }
}

impl<'a> Code<'a> {
    /// Interprets the function at `start` and collects the facts about it.
    pub fn analyze(&self, start: u32) -> (r: FuncFacts)
        ensures
            r.deep_view() == self.deep_view().analyze(start),
    {
        let end = self.extent(start);
        let bytes = self.pe.bytes(start, end.wrapping_sub(start) as usize);
        let va = self.pe.rva_to_va(start);
        let span = Span { base: self.pe.image_base, start_va: va, end_va: self.pe.rva_to_va(end) };
        let mut st = State::entry(start, end);
        let mut pos: usize = 0;
        let ghost c = self.deep_view();
        while pos < bytes.len()
            invariant_except_break
                c.final_state(start) == run(c, bytes@, va, span, pos as int, st.deep_view()),
            invariant
                c == self.deep_view(),
                st.deep_view().wf(),
            ensures
                c.final_state(start) == st.deep_view(),
            decreases bytes@.len() - pos,
        {
            let rest = vstd::slice::slice_subrange(bytes, pos, bytes.len());
            assert(rest@ =~= bytes@.skip(pos as int));
            let ip = va.wrapping_add(pos as u64);
            let ins = insn::decode(rest, ip);
            if ins.head.invalid {
                break;
            }
            let used = insn::used_registers(rest, ip);
            let mems = insn::used_memory(rest, ip);
            st.step(self, &ins, &used, &mems, &span);
            pos += ins.head.len as usize;
        }
        let mut facts = st.facts;
        if facts.insns as usize <= st.small.len() {
            facts.trivial = classify_trivial(self, &st.small);
        }
        facts
    }
}

// ---------------------------------------------------------------------------
// Whole modules.

/// Whole-module analysis results.
pub struct ModuleCode {
    /// Facts by function start.
    pub funcs: Table<u32, FuncFacts>,
    /// Import slot by the function that jumps through it.
    pub thunks: Table<u32, u32>,
}

/// Model of the analysis of a module.
pub ghost struct ModuleCodeV {
    pub funcs: Seq<(u32, FuncFactsV)>,
    pub thunks: Seq<(u32, u32)>,
}

impl DeepView for ModuleCode {
    type V = ModuleCodeV;

    open spec fn deep_view(&self) -> ModuleCodeV {
        ModuleCodeV { funcs: self.funcs.deep_view(), thunks: self.thunks.deep_view() }
    }
}

/// The starts of the first `n` functions of a function table, fragments left out.
pub open spec fn table_starts(fs: Seq<RuntimeFunction>, n: int) -> Seq<(u32, ())>
    decreases n,
{
    if n <= 0 {
        Seq::empty()
    } else if fs[n - 1].chained {
        table_starts(fs, n - 1)
    } else {
        table::put(table_starts(fs, n - 1), fs[n - 1].begin, ())
    }
}

/// The ends of the first `n` functions of a function table by their starts,
/// fragments left out.
pub open spec fn table_ends(fs: Seq<RuntimeFunction>, n: int) -> Seq<(u32, u32)>
    decreases n,
{
    if n <= 0 {
        Seq::empty()
    } else if fs[n - 1].chained {
        table_ends(fs, n - 1)
    } else {
        table::put(table_ends(fs, n - 1), fs[n - 1].begin, fs[n - 1].end)
    }
}

/// `starts` with the first `n` exports that are code of this module.
pub open spec fn export_starts(pe: PeV, starts: Seq<(u32, ())>, n: int) -> Seq<(u32, ())>
    decreases n,
{
    if n <= 0 {
        starts
    } else {
        let s = export_starts(pe, starts, n - 1);
        let e = pe.exports[n - 1];
        if e.forwarder is None && pe.is_exec(e.rva) {
            table::put(s, e.rva, ())
        } else {
            s
        }
    }
}

/// `starts` with those of the first `n` addresses that are executable.
pub open spec fn with_code(pe: PeV, starts: Seq<(u32, ())>, rvas: Seq<u32>, n: int) -> Seq<(u32, ())>
    decreases n,
{
    if n <= 0 {
        starts
    } else {
        let s = with_code(pe, starts, rvas, n - 1);
        if pe.is_exec(rvas[n - 1]) {
            table::put(s, rvas[n - 1], ())
        } else {
            s
        }
    }
}

/// `starts` with the first `n` addresses.
pub open spec fn with_all(starts: Seq<(u32, ())>, rvas: Seq<u32>, n: int) -> Seq<(u32, ())>
    decreases n,
{
    if n <= 0 {
        starts
    } else {
        table::put(with_all(starts, rvas, n - 1), rvas[n - 1], ())
    }
}

/// The function starts that a module gives away without its code.
pub open spec fn known_starts(pe: PeV, extra: Seq<u32>) -> Seq<(u32, ())> {
    let fs = pe.runtime_functions;
    let s = table_starts(fs, fs.len() as int);
    let s = export_starts(pe, s, pe.exports.len() as int);
    let s = with_code(pe, s, extra, extra.len() as int);
    if pe.entry != 0 {
        table::put(s, pe.entry, ())
    } else {
        s
    }
}

pub(crate) fn ends_of(pe: &Pe) -> (r: Table<u32, u32>)
    ensures
        r.deep_view() == table_ends(
            pe.deep_view().runtime_functions,
            pe.deep_view().runtime_functions.len() as int,
        ),
{
    let ghost fs = pe.deep_view().runtime_functions;
    let mut t: Table<u32, u32> = Table::new();
    let mut i: usize = 0;
    while i < pe.runtime_functions.len()
        invariant
            fs == pe.deep_view().runtime_functions,
            i <= pe.runtime_functions@.len(),
            t.deep_view() == table_ends(fs, i as int),
        decreases pe.runtime_functions@.len() - i,
    {
        let f = pe.runtime_functions[i];
        assert(f == fs[i as int]);
        if !f.chained {
            t.insert(f.begin, f.end);
        }
        i += 1;
    }
    t
}

fn starts_of(pe: &Pe, extra: &Vec<u32>) -> (r: Table<u32, ()>)
    ensures
        r.deep_view() == known_starts(pe.deep_view(), extra@),
{
    let ghost p = pe.deep_view();
    let mut t: Table<u32, ()> = Table::new();
    let mut i: usize = 0;
    while i < pe.runtime_functions.len()
        invariant
            p == pe.deep_view(),
            i <= pe.runtime_functions@.len(),
            t.deep_view() == table_starts(p.runtime_functions, i as int),
        decreases pe.runtime_functions@.len() - i,
    {
        let f = pe.runtime_functions[i];
        assert(f == p.runtime_functions[i as int]);
        if !f.chained {
            t.insert(f.begin, ());
        }
        i += 1;
    }
    let ghost first = t.deep_view();
    i = 0;
    while i < pe.exports.len()
        invariant
            p == pe.deep_view(),
            i <= pe.exports@.len(),
            t.deep_view() == export_starts(p, first, i as int),
        decreases pe.exports@.len() - i,
    {
        let e = &pe.exports[i];
        assert(e.deep_view() == p.exports[i as int]);
        if e.forwarder.is_none() && pe.is_exec(e.rva) {
            t.insert(e.rva, ());
        }
        i += 1;
    }
    let ghost second = t.deep_view();
    i = 0;
    while i < extra.len()
        invariant
            p == pe.deep_view(),
            i <= extra@.len(),
            t.deep_view() == with_code(p, second, extra@, i as int),
        decreases extra@.len() - i,
    {
        if pe.is_exec(extra[i]) {
            t.insert(extra[i], ());
        }
        i += 1;
    }
    if pe.entry != 0 {
        t.insert(pe.entry, ());
    }
    t
}

/// `found` with the new code that the first `n` calls of a function lead to.
pub open spec fn called_code(pe: PeV, starts: Seq<(u32, ())>, found: Seq<(u32, ())>, calls: Seq<CallSite>, n: int) -> Seq<
    (u32, ()),
>
    decreases n,
{
    if n <= 0 {
        found
    } else {
        let s = called_code(pe, starts, found, calls, n - 1);
        match calls[n - 1].target {
            Target::Direct(t) => if !table::holds(starts, t) && pe.is_exec(t) {
                table::put(s, t, ())
            } else {
                s
            },
            _ => s,
        }
    }
}

/// The analysed functions and the new code found, after the first `n` of the
/// functions that a round looks at.
pub open spec fn round(
    c: CodeV,
    funcs: Seq<(u32, FuncFactsV)>,
    todo: Seq<u32>,
    n: int,
) -> (Seq<(u32, FuncFactsV)>, Seq<(u32, ())>)
    decreases n,
{
    if n <= 0 {
        (funcs, Seq::empty())
    } else {
        let (fs, found) = round(c, funcs, todo, n - 1);
        let f = c.analyze(todo[n - 1]);
        (table::put(fs, f.start, f), called_code(c.pe, c.starts, found, f.calls, f.calls.len() as int))
    }
}

/// Those of the first `n` addresses found that are not analysed yet.
pub open spec fn unseen(funcs: Seq<(u32, FuncFactsV)>, found: Seq<(u32, ())>, n: int) -> Seq<u32>
    decreases n,
{
    if n <= 0 {
        Seq::empty()
    } else if table::holds(funcs, found[n - 1].0) {
        unseen(funcs, found, n - 1)
    } else {
        unseen(funcs, found, n - 1).push(found[n - 1].0)
    }
}

/// The functions and starts after at most `n` rounds, each over the code that
/// the one before it found.
pub open spec fn rounds(c: CodeV, funcs: Seq<(u32, FuncFactsV)>, todo: Seq<u32>, n: nat) -> (
    Seq<(u32, FuncFactsV)>,
    Seq<(u32, ())>,
)
    decreases n,
{
    if n == 0 || todo.len() == 0 {
        (funcs, c.starts)
    } else {
        let (fs, found) = round(c, funcs, todo, todo.len() as int);
        let next = unseen(fs, found, found.len() as int);
        let starts = with_all(c.starts, next, next.len() as int);
        rounds(CodeV { starts, ..c }, fs, next, (n - 1) as nat)
    }
}

/// The import slots that the first `n` functions jump through.
pub open spec fn thunks_of(c: CodeV, funcs: Seq<(u32, FuncFactsV)>, n: int) -> Seq<(u32, u32)>
    decreases n,
{
    if n <= 0 {
        Seq::empty()
    } else {
        let s = funcs[n - 1].0;
        match c.import_thunk(s) {
            Some(slot) => table::put(thunks_of(c, funcs, n - 1), s, slot),
            None => thunks_of(c, funcs, n - 1),
        }
    }
}

/// The analysis of a module.
pub open spec fn module_code(pe: PeV, vtables: Seq<(u32, ())>, extra: Seq<u32>) -> ModuleCodeV {
    let starts = known_starts(pe, extra);
    let fs = pe.runtime_functions;
    let c = CodeV { pe, vtables, starts, pdata_end: table_ends(fs, fs.len() as int) };
    let (funcs, all) = rounds(c, Seq::empty(), table::keys(starts), 3);
    ModuleCodeV { funcs, thunks: thunks_of(CodeV { starts: all, ..c }, funcs, funcs.len() as int) }
}

fn run_round(c: &Code, funcs: &mut Table<u32, FuncFacts>, todo: &Vec<u32>) -> (r: Table<u32, ()>)
    ensures
        (final(funcs).deep_view(), r.deep_view()) == round(
            c.deep_view(),
            old(funcs).deep_view(),
            todo@,
            todo@.len() as int,
        ),
{
    let ghost cv = c.deep_view();
    let ghost before = funcs.deep_view();
    let mut found: Table<u32, ()> = Table::new();
    let mut i: usize = 0;
    while i < todo.len()
        invariant
            cv == c.deep_view(),
            i <= todo@.len(),
            before == old(funcs).deep_view(),
            (funcs.deep_view(), found.deep_view()) == round(cv, before, todo@, i as int),
        decreases todo@.len() - i,
    {
        let f = c.analyze(todo[i]);
        let ghost was = found.deep_view();
        let mut k: usize = 0;
        while k < f.calls.len()
            invariant
                cv == c.deep_view(),
                k <= f.calls@.len(),
                found.deep_view() == called_code(cv.pe, cv.starts, was, f.calls@, k as int),
            decreases f.calls@.len() - k,
        {
            if let Target::Direct(t) = f.calls[k].target {
                if !c.starts.contains(&t) && c.pe.is_exec(t) {
                    found.insert(t, ());
                }
            }
            k += 1;
        }
        funcs.insert(f.start, f);
        i += 1;
    }
    found
}

fn not_seen(funcs: &Table<u32, FuncFacts>, found: &Table<u32, ()>) -> (r: Vec<u32>)
    ensures
        r@ == unseen(funcs.deep_view(), found.deep_view(), found.deep_view().len() as int),
{
    let mut out: Vec<u32> = Vec::new();
    let mut i: usize = 0;
    while i < found.len()
        invariant
            i <= found.deep_view().len(),
            out@ == unseen(funcs.deep_view(), found.deep_view(), i as int),
        decreases found.deep_view().len() - i,
    {
        let k = *found.key_at(i);
        if !funcs.contains(&k) {
            out.push(k);
        }
        i += 1;
    }
    out
}

fn run_rounds(
    pe: &Pe,
    vtables: &Table<u32, ()>,
    starts: &mut Table<u32, ()>,
    ends: &Table<u32, u32>,
    todo: Vec<u32>,
) -> (funcs: Table<u32, FuncFacts>)
    ensures
        (funcs.deep_view(), final(starts).deep_view()) == rounds(
            (CodeV {
                pe: pe.deep_view(),
                vtables: vtables.deep_view(),
                starts: old(starts).deep_view(),
                pdata_end: ends.deep_view(),
            }),
            Seq::empty(),
            todo@,
            3,
        ),
{
    let ghost c = CodeV {
        pe: pe.deep_view(),
        vtables: vtables.deep_view(),
        starts: starts.deep_view(),
        pdata_end: ends.deep_view(),
    };
    let ghost all = rounds(c, Seq::empty(), todo@, 3);
    let mut funcs: Table<u32, FuncFacts> = Table::new();
    let mut todo = todo;
    let mut n: usize = 3;
    while n > 0 && todo.len() > 0
        invariant
            c.pe == pe.deep_view(),
            c.vtables == vtables.deep_view(),
            c.pdata_end == ends.deep_view(),
            all == rounds((CodeV { starts: starts.deep_view(), ..c }), funcs.deep_view(), todo@, n as nat),
        decreases n,
    {
        let ghost known = starts.deep_view();
        let found = {
            let code = Code { pe, vtables, starts: &*starts, pdata_end: ends };
            run_round(&code, &mut funcs, &todo)
        };
        let next = not_seen(&funcs, &found);
        let mut i: usize = 0;
        while i < next.len()
            invariant
                i <= next@.len(),
                starts.deep_view() == with_all(known, next@, i as int),
            decreases next@.len() - i,
        {
            starts.insert(next[i], ());
            i += 1;
        }
        todo = next;
        n -= 1;
    }
    funcs
}

/// The keys of a table, in order.
pub(crate) fn keys_of<W: DeepView>(t: &Table<u32, W>) -> (r: Vec<u32>)
    ensures
        r@ == table::keys(t.deep_view()),
{
    let ghost s = t.deep_view();
    let mut out: Vec<u32> = Vec::new();
    let mut i: usize = 0;
    while i < t.len()
        invariant
            s == t.deep_view(),
            i <= s.len(),
            out@ == table::keys(s).take(i as int),
        decreases s.len() - i,
    {
        out.push(*t.key_at(i));
        i += 1;
        assert(table::keys(s).take(i as int) =~= table::keys(s).take(i - 1).push(s[i - 1].0));
    }
    assert(table::keys(s).take(i as int) =~= table::keys(s));
    out
}

/// Analyses the functions of a module: those it gives away, then those that
/// they call, for three rounds.
pub fn analyze_module(pe: &Pe, vtables: &Table<u32, ()>, extra_starts: &Vec<u32>) -> (r: ModuleCode)
    ensures
        r.deep_view() == module_code(pe.deep_view(), vtables.deep_view(), extra_starts@),
{
    let mut starts = starts_of(pe, extra_starts);
    let ends = ends_of(pe);
    let todo = keys_of(&starts);
    let funcs = run_rounds(pe, vtables, &mut starts, &ends, todo);
    let code = Code { pe, vtables, starts: &starts, pdata_end: &ends };
    let ghost c = code.deep_view();
    let mut thunks: Table<u32, u32> = Table::new();
    let mut i: usize = 0;
    while i < funcs.len()
        invariant
            c == code.deep_view(),
            i <= funcs.deep_view().len(),
            thunks.deep_view() == thunks_of(c, funcs.deep_view(), i as int),
        decreases funcs.deep_view().len() - i,
    {
        let s = *funcs.key_at(i);
        if let Some(slot) = code.import_thunk(s) {
            thunks.insert(s, slot);
        }
        i += 1;
    }
    ModuleCode { funcs, thunks }
}

} // verus!
