//! Decoded x86-64 instructions as plain values.
//!
//! The decoder is iced-x86. Mnemonics, registers, operand kinds, flow control,
//! accesses and memory sizes are held as the numbers iced-x86 gives them; the
//! constants below name those the analysis looks for.

use vstd::prelude::*;

verus! {

pub const MNEM_ADD: u32 = 7;

pub const MNEM_AND: u32 = 21;

pub const MNEM_LEA: u32 = 374;

pub const MNEM_MOV: u32 = 414;

pub const MNEM_SUB: u32 = 740;

pub const MNEM_TEST: u32 = 751;

pub const MNEM_XOR: u32 = 1518;

pub const REG_NONE: u32 = 0;

pub const REG_DL: u32 = 3;

pub const REG_DX: u32 = 23;

pub const REG_EAX: u32 = 37;

pub const REG_EDX: u32 = 39;

pub const REG_R15D: u32 = 52;

pub const REG_RAX: u32 = 53;

pub const REG_RCX: u32 = 54;

pub const REG_RDX: u32 = 55;

pub const REG_R15: u32 = 68;

pub const REG_RIP: u32 = 70;

pub const REG_XMM0: u32 = 77;

pub const REG_XMM1: u32 = 78;

pub const KIND_REGISTER: u32 = 0;

pub const KIND_NEAR_BRANCH64: u32 = 3;

pub const KIND_IMMEDIATE8: u32 = 6;

pub const KIND_IMMEDIATE8_2ND: u32 = 7;

pub const KIND_IMMEDIATE8TO16: u32 = 11;

pub const KIND_IMMEDIATE32TO64: u32 = 14;

pub const KIND_MEMORY: u32 = 24;

pub const FLOW_UNCONDITIONAL_BRANCH: u32 = 1;

pub const FLOW_INDIRECT_BRANCH: u32 = 2;

pub const FLOW_CONDITIONAL_BRANCH: u32 = 3;

pub const FLOW_RETURN: u32 = 4;

pub const FLOW_CALL: u32 = 5;

pub const FLOW_INDIRECT_CALL: u32 = 6;

pub const FLOW_INTERRUPT: u32 = 7;

pub const FLOW_EXCEPTION: u32 = 9;

pub const ACCESS_READ: u32 = 1;

pub const ACCESS_COND_READ: u32 = 2;

pub const ACCESS_WRITE: u32 = 3;

pub const ACCESS_COND_WRITE: u32 = 4;

pub const ACCESS_READ_WRITE: u32 = 5;

pub const ACCESS_READ_COND_WRITE: u32 = 6;

pub const SIZE_UINT8: u32 = 1;

pub const SIZE_UINT16: u32 = 2;

pub const SIZE_UINT32: u32 = 3;

pub const SIZE_UINT64: u32 = 5;

pub const SIZE_INT8: u32 = 9;

pub const SIZE_INT16: u32 = 10;

pub const SIZE_INT32: u32 = 11;

pub const SIZE_INT64: u32 = 12;

pub const SIZE_DWORD_OFFSET: u32 = 20;

pub const SIZE_QWORD_OFFSET: u32 = 21;

pub const SIZE_FLOAT32: u32 = 29;

pub const SIZE_FLOAT64: u32 = 30;

/// The size of a memory operand: its number, its bytes, and whether it packs
/// several elements.
#[derive(Clone, Copy, Debug)]
pub struct MemSize {
    pub code: u32,
    pub bytes: u32,
    pub packed: bool,
}

/// What an instruction is, apart from its operands.
#[derive(Clone, Copy, Debug)]
pub struct Head {
    pub len: u32,
    pub invalid: bool,
    pub mnemonic: u32,
    pub flow: u32,
    pub op_count: u32,
    /// Target of a near branch, 0 for other instructions.
    pub target: u64,
}

/// One operand: its kind, its register and its immediate.
#[derive(Clone, Copy, Debug)]
pub struct Operand {
    pub kind: u32,
    pub reg: u32,
    pub imm: Option<u64>,
}

/// The memory operand of an instruction.
#[derive(Clone, Copy, Debug)]
pub struct MemOp {
    pub base: u32,
    pub index: u32,
    pub disp: u64,
    pub size: MemSize,
    pub ip_rel: bool,
    /// Address of an operand relative to the instruction pointer.
    pub ip_rel_addr: u64,
}

/// A register that an instruction uses, and how.
#[derive(Clone, Copy, Debug)]
pub struct UsedReg {
    pub reg: u32,
    pub access: u32,
}

/// A memory location that an instruction uses, and how.
#[derive(Clone, Copy, Debug)]
pub struct UsedMem {
    pub base: u32,
    pub index: u32,
    pub disp: u64,
    pub size: MemSize,
    pub access: u32,
}

/// Where the displacement and the immediates of an instruction are encoded; a
/// size of 0 where there is none.
#[derive(Clone, Copy, Debug)]
pub struct Offsets {
    pub disp_off: usize,
    pub disp_size: usize,
    pub imm_off: usize,
    pub imm_size: usize,
    pub imm2_off: usize,
    pub imm2_size: usize,
}

/// A decoded instruction.
#[derive(Clone, Copy, Debug)]
pub struct Insn {
    pub ip: u64,
    pub head: Head,
    pub mem: MemOp,
    pub op0: Operand,
    pub op1: Operand,
    pub op2: Operand,
    pub op3: Operand,
    pub op4: Operand,
}

/// The head of the instruction that `bytes` start with.
pub uninterp spec fn head_of(bytes: Seq<u8>, ip: u64) -> Head;

/// The memory operand of the instruction that `bytes` start with.
pub uninterp spec fn memory_of(bytes: Seq<u8>, ip: u64) -> MemOp;

/// Operand `i` of the instruction that `bytes` start with.
pub uninterp spec fn operand_of(bytes: Seq<u8>, ip: u64, i: u32) -> Operand;

/// The registers that the instruction that `bytes` start with uses.
pub uninterp spec fn regs_of(bytes: Seq<u8>, ip: u64) -> Seq<UsedReg>;

/// The memory that the instruction that `bytes` start with uses.
pub uninterp spec fn mems_of(bytes: Seq<u8>, ip: u64) -> Seq<UsedMem>;

/// Where the constants of the instruction that `bytes` start with are encoded.
pub uninterp spec fn offsets_of(bytes: Seq<u8>, ip: u64) -> Offsets;

/// `Decoder::with_ip(64, ..).decode()` of iced-x86 with the getters that need
/// no operand: a function of the bytes and the address. An instruction of a
/// nonempty input is 1 to 15 bytes long and does not run past the input.
#[verifier::external_body]
fn decode_head(bytes: &[u8], ip: u64) -> (r: Head)
    ensures
        r == head_of(bytes@, ip),
        bytes@.len() > 0 ==> 1 <= r.len <= 15 && r.len <= bytes@.len(),
{
    let i = iced_x86::Decoder::with_ip(64, bytes, ip, iced_x86::DecoderOptions::NONE).decode();
    Head {
        len: i.len() as u32,
        invalid: i.is_invalid(),
        mnemonic: i.mnemonic() as u32,
        flow: i.flow_control() as u32,
        op_count: i.op_count(),
        target: i.near_branch_target(),
    }
}

/// The memory operand getters of an iced-x86 `Instruction`: functions of the
/// bytes and the address.
#[verifier::external_body]
fn decode_memory(bytes: &[u8], ip: u64) -> (r: MemOp)
    ensures
        r == memory_of(bytes@, ip),
{
    let i = iced_x86::Decoder::with_ip(64, bytes, ip, iced_x86::DecoderOptions::NONE).decode();
    let s = i.memory_size();
    MemOp {
        base: i.memory_base() as u32,
        index: i.memory_index() as u32,
        disp: i.memory_displacement64(),
        size: MemSize { code: s as u32, bytes: s.size() as u32, packed: s.is_packed() },
        ip_rel: i.is_ip_rel_memory_operand(),
        ip_rel_addr: i.ip_rel_memory_address(),
    }
}

/// `op_kind`, `op_register` and `try_immediate` of an iced-x86 `Instruction`:
/// functions of the bytes, the address and the operand, which is one of the
/// five. There is an immediate exactly for the kinds that `is_immediate` lists.
#[verifier::external_body]
fn decode_operand(bytes: &[u8], ip: u64, i: u32) -> (r: Operand)
    requires
        i < 5,
    ensures
        r == operand_of(bytes@, ip, i),
        r.imm.is_some() == is_immediate(r.kind),
{
    let ins = iced_x86::Decoder::with_ip(64, bytes, ip, iced_x86::DecoderOptions::NONE).decode();
    Operand { kind: ins.op_kind(i) as u32, reg: ins.op_register(i) as u32, imm: ins.try_immediate(i).ok() }
}

/// `InstructionInfoFactory::info` and `used_registers` of iced-x86: a function
/// of the bytes and the address.
#[verifier::external_body]
pub(crate) fn used_registers(bytes: &[u8], ip: u64) -> (r: Vec<UsedReg>)
    ensures
        r@ == regs_of(bytes@, ip),
{
    let i = iced_x86::Decoder::with_ip(64, bytes, ip, iced_x86::DecoderOptions::NONE).decode();
    let mut f = iced_x86::InstructionInfoFactory::new();
    let used = f.info(&i).used_registers();
    used.iter().map(|u| UsedReg { reg: u.register() as u32, access: u.access() as u32 }).collect()
}

/// `InstructionInfoFactory::info` and `used_memory` of iced-x86: a function of
/// the bytes and the address.
#[verifier::external_body]
pub(crate) fn used_memory(bytes: &[u8], ip: u64) -> (r: Vec<UsedMem>)
    ensures
        r@ == mems_of(bytes@, ip),
{
    let i = iced_x86::Decoder::with_ip(64, bytes, ip, iced_x86::DecoderOptions::NONE).decode();
    let mut f = iced_x86::InstructionInfoFactory::new();
    let size = |s: iced_x86::MemorySize| MemSize { code: s as u32, bytes: s.size() as u32, packed: s.is_packed() };
    let used = f.info(&i).used_memory();
    used.iter().map(|m| UsedMem {
        base: m.base() as u32,
        index: m.index() as u32,
        disp: m.displacement(),
        size: size(m.memory_size()),
        access: m.access() as u32,
    }).collect()
}

/// `Decoder::get_constant_offsets` of iced-x86: a function of the bytes and the
/// address.
#[verifier::external_body]
pub(crate) fn constant_offsets(bytes: &[u8], ip: u64) -> (r: Offsets)
    ensures
        r == offsets_of(bytes@, ip),
{
    let mut d = iced_x86::Decoder::with_ip(64, bytes, ip, iced_x86::DecoderOptions::NONE);
    let i = d.decode();
    let c = d.get_constant_offsets(&i);
    Offsets {
        disp_off: c.displacement_offset(),
        disp_size: c.displacement_size(),
        imm_off: c.immediate_offset(),
        imm_size: c.immediate_size(),
        imm2_off: c.immediate_offset2(),
        imm2_size: c.immediate_size2(),
    }
}

/// `Register::full_register` of iced-x86, on register numbers: the 64-bit
/// register of a general purpose register of any width, and none of the 64-bit
/// registers otherwise.
#[verifier::external_body]
fn full_register(r: u32) -> (f: u32)
    ensures
        match gpr_number(r) {
            Some(i) => f == REG_RAX + i,
            None => !(REG_RAX <= f <= REG_R15),
        },
{
    match iced_x86::Register::try_from(r as usize) {
        Ok(x) => x.full_register() as u32,
        Err(_) => 0,
    }
}

/// The number, from RAX on, of the general purpose register that `r` is a part
/// of: the low and high bytes of the first four, the bytes of the others, then
/// the words, double words and quad words.
pub open spec fn gpr_number(r: u32) -> Option<int> {
    if 1 <= r <= 4 {
        Some(r - 1)
    } else if 5 <= r <= 20 {
        Some(r - 5)
    } else if 21 <= r <= 36 {
        Some(r - 21)
    } else if 37 <= r <= 52 {
        Some(r - 37)
    } else if 53 <= r <= 68 {
        Some(r - 53)
    } else {
        None
    }
}

/// The number, from RAX on, of the general purpose register that `r` is a part
/// of.
pub fn gpr(r: u32) -> (n: Option<usize>)
    ensures
        match n {
            Some(i) => gpr_number(r) == Some(i as int) && i < 16,
            None => gpr_number(r) is None,
        },
{
    if r == REG_NONE {
        return None;
    }
    let i = full_register(r).wrapping_sub(REG_RAX);
    if i < 16 {
        Some(i as usize)
    } else {
        None
    }
}

pub open spec fn gpr64(r: u32) -> bool {
    REG_RAX <= r <= REG_R15
}

pub open spec fn gpr32(r: u32) -> bool {
    REG_EAX <= r <= REG_R15D
}

pub fn is_gpr64(r: u32) -> (b: bool)
    ensures
        b == gpr64(r),
{
    REG_RAX <= r && r <= REG_R15
}

pub fn is_gpr32(r: u32) -> (b: bool)
    ensures
        b == gpr32(r),
{
    REG_EAX <= r && r <= REG_R15D
}

/// Operand kinds that hold an immediate.
pub open spec fn is_immediate(kind: u32) -> bool {
    KIND_IMMEDIATE8 <= kind <= KIND_IMMEDIATE32TO64
}

/// The instruction that `bytes` start with.
pub open spec fn insn(bytes: Seq<u8>, ip: u64) -> Insn {
    Insn {
        ip,
        head: head_of(bytes, ip),
        mem: memory_of(bytes, ip),
        op0: operand_of(bytes, ip, 0),
        op1: operand_of(bytes, ip, 1),
        op2: operand_of(bytes, ip, 2),
        op3: operand_of(bytes, ip, 3),
        op4: operand_of(bytes, ip, 4),
    }
}

/// The instruction that `bytes` start with, at address `ip`.
pub fn decode(bytes: &[u8], ip: u64) -> (r: Insn)
    ensures
        r == insn(bytes@, ip),
        bytes@.len() > 0 ==> 1 <= r.head.len <= 15 && r.head.len <= bytes@.len(),
{
    Insn {
        ip,
        head: decode_head(bytes, ip),
        mem: decode_memory(bytes, ip),
        op0: decode_operand(bytes, ip, 0),
        op1: decode_operand(bytes, ip, 1),
        op2: decode_operand(bytes, ip, 2),
        op3: decode_operand(bytes, ip, 3),
        op4: decode_operand(bytes, ip, 4),
    }
}

impl Insn {
    /// Address of the instruction behind this one.
    pub open spec fn next(self) -> u64 {
        self.ip.wrapping_add(self.head.len as u64)
    }

    pub fn next_ip(&self) -> (r: u64)
        ensures
            r == self.next(),
    {
        self.ip.wrapping_add(self.head.len as u64)
    }

    /// Operand `i`.
    pub open spec fn op(self, i: int) -> Operand {
        if i == 0 {
            self.op0
        } else if i == 1 {
            self.op1
        } else if i == 2 {
            self.op2
        } else if i == 3 {
            self.op3
        } else {
            self.op4
        }
    }

    pub fn operand(&self, i: u32) -> (r: Operand)
        ensures
            r == self.op(i as int),
    {
        if i == 0 {
            self.op0
        } else if i == 1 {
            self.op1
        } else if i == 2 {
            self.op2
        } else if i == 3 {
            self.op3
        } else {
            self.op4
        }
    }

    /// The first immediate among the operands from `i` on.
    pub open spec fn imm_from(self, i: int) -> Option<u64>
        decreases self.head.op_count - i,
    {
        if i < 0 || i >= self.head.op_count {
            None
        } else if is_immediate(self.op(i).kind) {
            Some(self.immediate(i))
        } else {
            self.imm_from(i + 1)
        }
    }

    /// The first immediate operand.
    pub open spec fn imm(self) -> Option<u64> {
        self.imm_from(0)
    }

    /// The immediate of operand `i`, 0 where it has none.
    pub open spec fn immediate(self, i: int) -> u64 {
        match self.op(i).imm {
            Some(v) => v,
            None => 0,
        }
    }

    /// One of the operands is in memory.
    pub open spec fn has_memory(self) -> bool {
        exists|k: int| 0 <= k < self.head.op_count && (#[trigger] self.op(k)).kind == KIND_MEMORY
    }

    pub fn uses_memory(&self) -> (r: bool)
        ensures
            r == self.has_memory(),
    {
        let mut i: u32 = 0;
        while i < self.head.op_count
            invariant
                i <= self.head.op_count,
                forall|k: int| 0 <= k < i ==> (#[trigger] self.op(k)).kind != KIND_MEMORY,
            decreases self.head.op_count - i,
        {
            if self.operand(i).kind == KIND_MEMORY {
                assert(self.op(i as int).kind == KIND_MEMORY);
                return true;
            }
            i += 1;
        }
        false
    }
}

/// The first immediate operand of an instruction.
pub fn imm_value(ins: &Insn) -> (r: Option<u64>)
    ensures
        r == ins.imm(),
{
    let mut i: u32 = 0;
    while i < ins.head.op_count
        invariant
            i <= ins.head.op_count,
            ins.imm() == ins.imm_from(i as int),
        decreases ins.head.op_count - i,
    {
        let o = ins.operand(i);
        if KIND_IMMEDIATE8 <= o.kind && o.kind <= KIND_IMMEDIATE32TO64 {
            return match o.imm {
                Some(v) => Some(v),
                None => Some(0),
            };
        }
        i += 1;
    }
    None
}

} // verus!
