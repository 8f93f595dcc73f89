//! The instruction set: field layout, the decoded instruction variants and the
//! total decoder from a 32-bit word.

use vstd::prelude::*;
use vstd::string::StringSliceAdditionalSpecFns;

verus! {

/// A register number (0-31).
pub type Register = u8;

/// A raw 32-bit instruction word.
pub type Instruction = u32;

/// A 32-bit data word.
pub type Word = u32;

/// A 16-bit signed immediate.
pub type Immediate = i16;

/// The 26-bit target field of a jump (a word index).
pub type Address = u32;

/// Every instruction occupies this many bytes.
pub const INSTRUCTION_SIZE: usize = 4;

/// A decoded instruction.
#[derive(Debug, Clone, Copy, PartialEq, Eq, Structural)]
pub enum InstructionType {
    Add { rd: Register, rs: Register, rt: Register },
    Sub { rd: Register, rs: Register, rt: Register },
    And { rd: Register, rs: Register, rt: Register },
    Or { rd: Register, rs: Register, rt: Register },
    Slt { rd: Register, rs: Register, rt: Register },
    Sll { rd: Register, rt: Register, shamt: u8 },
    Srl { rd: Register, rt: Register, shamt: u8 },
    Jr { rs: Register },
    Addi { rt: Register, rs: Register, imm: Immediate },
    Lw { rt: Register, rs: Register, imm: Immediate },
    Sw { rt: Register, rs: Register, imm: Immediate },
    Beq { rs: Register, rt: Register, imm: Immediate },
    Bne { rs: Register, rt: Register, imm: Immediate },
    Slti { rt: Register, rs: Register, imm: Immediate },
    J { addr: Address },
    Jal { addr: Address },
    Syscall,
    Invalid,
}

/// Bits 31-26.
pub open spec fn opcode_field(w: u32) -> u32 {
    (w >> 26u32) & 0x3f
}

/// Bits 25-21.
pub open spec fn rs_field(w: u32) -> u32 {
    (w >> 21u32) & 0x1f
}

/// Bits 20-16.
pub open spec fn rt_field(w: u32) -> u32 {
    (w >> 16u32) & 0x1f
}

/// Bits 15-11.
pub open spec fn rd_field(w: u32) -> u32 {
    (w >> 11u32) & 0x1f
}

/// Bits 10-6.
pub open spec fn shamt_field(w: u32) -> u32 {
    (w >> 6u32) & 0x1f
}

/// Bits 5-0.
pub open spec fn funct_field(w: u32) -> u32 {
    w & 0x3f
}

/// Bits 25-0.
pub open spec fn target_field(w: u32) -> u32 {
    w & 0x3ff_ffff
}

/// Bits 15-0 read as a two's-complement 16-bit number.
pub open spec fn imm_field(w: u32) -> int {
    let lo = w & 0xffff;
    if lo < 0x8000 {
        lo as int
    } else {
        lo as int - 0x1_0000
    }
}

/// The decode table.
pub open spec fn spec_decode(w: u32) -> InstructionType {
    let rs = rs_field(w) as u8;
    let rt = rt_field(w) as u8;
    let rd = rd_field(w) as u8;
    let shamt = shamt_field(w) as u8;
    let imm = imm_field(w) as i16;
    let addr = target_field(w);
    let op = opcode_field(w);
    if op == 0x00 {
        let funct = funct_field(w);
        if funct == 0x20 {
            InstructionType::Add { rd, rs, rt }
        } else if funct == 0x22 {
            InstructionType::Sub { rd, rs, rt }
        } else if funct == 0x24 {
            InstructionType::And { rd, rs, rt }
        } else if funct == 0x25 {
            InstructionType::Or { rd, rs, rt }
        } else if funct == 0x2a {
            InstructionType::Slt { rd, rs, rt }
        } else if funct == 0x00 {
            InstructionType::Sll { rd, rt, shamt }
        } else if funct == 0x02 {
            InstructionType::Srl { rd, rt, shamt }
        } else if funct == 0x08 {
            InstructionType::Jr { rs }
        } else if funct == 0x0c {
            InstructionType::Syscall
        } else {
            InstructionType::Invalid
        }
    } else if op == 0x08 {
        InstructionType::Addi { rt, rs, imm }
    } else if op == 0x23 {
        InstructionType::Lw { rt, rs, imm }
    } else if op == 0x2b {
        InstructionType::Sw { rt, rs, imm }
    } else if op == 0x04 {
        InstructionType::Beq { rs, rt, imm }
    } else if op == 0x05 {
        InstructionType::Bne { rs, rt, imm }
    } else if op == 0x0a {
        InstructionType::Slti { rt, rs, imm }
    } else if op == 0x02 {
        InstructionType::J { addr }
    } else if op == 0x03 {
        InstructionType::Jal { addr }
    } else {
        InstructionType::Invalid
    }
}

/// Register operands are always in 0..32 and shift amounts in 0..32.
pub open spec fn operands_in_range(i: InstructionType) -> bool {
    match i {
        InstructionType::Add { rd, rs, rt }
        | InstructionType::Sub { rd, rs, rt }
        | InstructionType::And { rd, rs, rt }
        | InstructionType::Or { rd, rs, rt }
        | InstructionType::Slt { rd, rs, rt } => rd < 32 && rs < 32 && rt < 32,
        InstructionType::Sll { rd, rt, shamt } | InstructionType::Srl { rd, rt, shamt } => rd
            < 32 && rt < 32 && shamt < 32,
        InstructionType::Jr { rs } => rs < 32,
        InstructionType::Addi { rt, rs, .. }
        | InstructionType::Lw { rt, rs, .. }
        | InstructionType::Sw { rt, rs, .. }
        | InstructionType::Beq { rs, rt, .. }
        | InstructionType::Bne { rs, rt, .. }
        | InstructionType::Slti { rt, rs, .. } => rs < 32 && rt < 32,
        InstructionType::J { addr } | InstructionType::Jal { addr } => addr < 0x400_0000,
        InstructionType::Syscall | InstructionType::Invalid => true,
    }
}

/// Every decoded instruction has its operands in range.
pub proof fn lemma_decode_operands_in_range(w: u32)
    ensures
        operands_in_range(spec_decode(w)),
{
    assert(rs_field(w) < 32 && rt_field(w) < 32 && rd_field(w) < 32 && shamt_field(w) < 32
        && target_field(w) < 0x400_0000) by (bit_vector);
}

/// The decimal digits of `n`, most significant first.
pub open spec fn decimal(n: nat) -> Seq<u8>
    decreases n,
{
    if n < 10 {
        seq![(48 + n) as u8]
    } else {
        decimal(n / 10).push((48 + n % 10) as u8)
    }
}

/// `x` in decimal, with a leading `-` when negative.
pub open spec fn signed_decimal(x: int) -> Seq<u8> {
    if x < 0 {
        seq![45u8] + decimal((-x) as nat)
    } else {
        decimal(x as nat)
    }
}

/// The upper-case hexadecimal digit for `d` below 16.
pub open spec fn hex_char(d: nat) -> u8 {
    if d < 10 {
        (48 + d) as u8
    } else {
        (55 + d) as u8
    }
}

/// The last `width` hexadecimal digits of `v`, most significant first.
pub open spec fn hex_fixed(v: nat, width: nat) -> Seq<u8>
    decreases width,
{
    if width == 0 {
        seq![]
    } else {
        hex_fixed(v / 16, (width - 1) as nat).push(hex_char(v % 16))
    }
}

/// A register as `$<n>`.
pub open spec fn reg_text(r: u8) -> Seq<u8> {
    seq![36u8] + decimal(r as nat)
}

/// `mnemonic a, b, c` for three register operands.
pub open spec fn three_regs(mnemonic: &str, a: u8, b: u8, c: u8) -> Seq<u8> {
    mnemonic.spec_bytes() + reg_text(a) + ", ".spec_bytes() + reg_text(b) + ", ".spec_bytes()
        + reg_text(c)
}

/// `mnemonic a, b, imm` for two register operands and a number.
pub open spec fn two_regs_imm(mnemonic: &str, a: u8, b: u8, imm: int) -> Seq<u8> {
    mnemonic.spec_bytes() + reg_text(a) + ", ".spec_bytes() + reg_text(b) + ", ".spec_bytes()
        + signed_decimal(imm)
}

/// `mnemonic a, imm(b)` for a load or store.
pub open spec fn offset_form(mnemonic: &str, a: u8, imm: int, b: u8) -> Seq<u8> {
    mnemonic.spec_bytes() + reg_text(a) + ", ".spec_bytes() + signed_decimal(imm) + "(".spec_bytes()
        + reg_text(b) + ")".spec_bytes()
}

/// `mnemonic 0x<target>` for a jump, with the target as a byte address in
/// eight hexadecimal digits.
pub open spec fn jump_form(mnemonic: &str, addr: u32) -> Seq<u8> {
    mnemonic.spec_bytes() + "0x".spec_bytes() + hex_fixed((addr as nat) * 4, 8)
}

/// The assembly text of an instruction.
pub open spec fn disassembly_text(i: InstructionType) -> Seq<u8> {
    match i {
        InstructionType::Add { rd, rs, rt } => three_regs("add ", rd, rs, rt),
        InstructionType::Sub { rd, rs, rt } => three_regs("sub ", rd, rs, rt),
        InstructionType::And { rd, rs, rt } => three_regs("and ", rd, rs, rt),
        InstructionType::Or { rd, rs, rt } => three_regs("or ", rd, rs, rt),
        InstructionType::Slt { rd, rs, rt } => three_regs("slt ", rd, rs, rt),
        InstructionType::Sll { rd, rt, shamt } => two_regs_imm("sll ", rd, rt, shamt as int),
        InstructionType::Srl { rd, rt, shamt } => two_regs_imm("srl ", rd, rt, shamt as int),
        InstructionType::Jr { rs } => "jr ".spec_bytes() + reg_text(rs),
        InstructionType::Addi { rt, rs, imm } => two_regs_imm("addi ", rt, rs, imm as int),
        InstructionType::Lw { rt, rs, imm } => offset_form("lw ", rt, imm as int, rs),
        InstructionType::Sw { rt, rs, imm } => offset_form("sw ", rt, imm as int, rs),
        InstructionType::Beq { rs, rt, imm } => two_regs_imm("beq ", rs, rt, imm as int),
        InstructionType::Bne { rs, rt, imm } => two_regs_imm("bne ", rs, rt, imm as int),
        InstructionType::Slti { rt, rs, imm } => two_regs_imm("slti ", rt, rs, imm as int),
        InstructionType::J { addr } => jump_form("j ", addr),
        InstructionType::Jal { addr } => jump_form("jal ", addr),
        InstructionType::Syscall => "syscall".spec_bytes(),
        InstructionType::Invalid => "invalid".spec_bytes(),
    }
}

fn push_str(out: &mut Vec<u8>, s: &str)
    ensures
        final(out)@ == old(out)@ + s.spec_bytes(),
{
    let bytes = s.as_bytes();
    let mut i: usize = 0;
    while i < bytes.len()
        invariant
            i <= bytes@.len(),
            bytes@ == s.spec_bytes(),
            out@ == old(out)@ + bytes@.subrange(0, i as int),
        decreases bytes@.len() - i,
    {
        out.push(bytes[i]);
        i = i + 1;
        assert(out@ =~= old(out)@ + bytes@.subrange(0, i as int));
    }
    assert(bytes@.subrange(0, i as int) =~= bytes@);
}

fn push_decimal(out: &mut Vec<u8>, n: u32)
    ensures
        final(out)@ == old(out)@ + decimal(n as nat),
    decreases n,
{
    if n >= 10 {
        push_decimal(out, n / 10);
    }
    out.push((48 + n % 10) as u8);
    assert(out@ =~= old(out)@ + decimal(n as nat));
}

fn push_signed(out: &mut Vec<u8>, x: i64)
    requires
        -0x1_0000_0000 < x < 0x1_0000_0000,
    ensures
        final(out)@ == old(out)@ + signed_decimal(x as int),
{
    if x < 0 {
        out.push(45);
        push_decimal(out, (-x) as u32);
        assert(out@ =~= old(out)@ + signed_decimal(x as int));
    } else {
        push_decimal(out, x as u32);
    }
}

fn push_hex(out: &mut Vec<u8>, v: u64, width: u32)
    ensures
        final(out)@ == old(out)@ + hex_fixed(v as nat, width as nat),
    decreases width,
{
    if width > 0 {
        push_hex(out, v / 16, width - 1);
        let d = (v % 16) as u8;
        out.push(if d < 10 { 48 + d } else { 55 + d });
        assert(out@ =~= old(out)@ + hex_fixed(v as nat, width as nat));
    }
}

fn push_reg(out: &mut Vec<u8>, r: u8)
    ensures
        final(out)@ == old(out)@ + reg_text(r),
{
    out.push(36);
    push_decimal(out, r as u32);
    assert(out@ =~= old(out)@ + reg_text(r));
}

fn push_three_regs(out: &mut Vec<u8>, mnemonic: &str, a: u8, b: u8, c: u8)
    ensures
        final(out)@ == old(out)@ + three_regs(mnemonic, a, b, c),
{
    push_str(out, mnemonic);
    push_reg(out, a);
    push_str(out, ", ");
    push_reg(out, b);
    push_str(out, ", ");
    push_reg(out, c);
    assert(out@ =~= old(out)@ + three_regs(mnemonic, a, b, c));
}

fn push_two_regs_imm(out: &mut Vec<u8>, mnemonic: &str, a: u8, b: u8, imm: i64)
    requires
        -0x1_0000_0000 < imm < 0x1_0000_0000,
    ensures
        final(out)@ == old(out)@ + two_regs_imm(mnemonic, a, b, imm as int),
{
    push_str(out, mnemonic);
    push_reg(out, a);
    push_str(out, ", ");
    push_reg(out, b);
    push_str(out, ", ");
    push_signed(out, imm);
    assert(out@ =~= old(out)@ + two_regs_imm(mnemonic, a, b, imm as int));
}

fn push_offset_form(out: &mut Vec<u8>, mnemonic: &str, a: u8, imm: i16, b: u8)
    ensures
        final(out)@ == old(out)@ + offset_form(mnemonic, a, imm as int, b),
{
    push_str(out, mnemonic);
    push_reg(out, a);
    push_str(out, ", ");
    push_signed(out, imm as i64);
    push_str(out, "(");
    push_reg(out, b);
    push_str(out, ")");
    assert(out@ =~= old(out)@ + offset_form(mnemonic, a, imm as int, b));
}

fn push_jump_form(out: &mut Vec<u8>, mnemonic: &str, addr: u32)
    ensures
        final(out)@ == old(out)@ + jump_form(mnemonic, addr),
{
    push_str(out, mnemonic);
    push_str(out, "0x");
    push_hex(out, addr as u64 * 4, 8);
    assert(out@ =~= old(out)@ + jump_form(mnemonic, addr));
}

impl InstructionType {
    /// Decodes a 32-bit word. Total: a word with an unknown opcode or function
    /// code decodes to `Invalid`.
    pub fn decode(instruction: Instruction) -> (r: Self)
        ensures
            r == spec_decode(instruction),
            operands_in_range(r),
    {
        proof {
            lemma_decode_operands_in_range(instruction);
            assert(instruction & 0xffff <= 0xffff) by (bit_vector);
        }
        let opcode = (instruction >> 26u32) & 0x3f;
        let rs = ((instruction >> 21u32) & 0x1f) as u8;
        let rt = ((instruction >> 16u32) & 0x1f) as u8;
        let rd = ((instruction >> 11u32) & 0x1f) as u8;
        let shamt = ((instruction >> 6u32) & 0x1f) as u8;
        let funct = instruction & 0x3f;
        let lo = instruction & 0xffff;
        let imm: i16 = if lo < 0x8000 {
            lo as i16
        } else {
            (lo as i32 - 0x1_0000i32) as i16
        };
        let addr = instruction & 0x3ff_ffff;
        match opcode {
            0x00 => match funct {
                0x20 => InstructionType::Add { rd, rs, rt },
                0x22 => InstructionType::Sub { rd, rs, rt },
                0x24 => InstructionType::And { rd, rs, rt },
                0x25 => InstructionType::Or { rd, rs, rt },
                0x2a => InstructionType::Slt { rd, rs, rt },
                0x00 => InstructionType::Sll { rd, rt, shamt },
                0x02 => InstructionType::Srl { rd, rt, shamt },
                0x08 => InstructionType::Jr { rs },
                0x0c => InstructionType::Syscall,
                _ => InstructionType::Invalid,
            },
            0x08 => InstructionType::Addi { rt, rs, imm },
            0x23 => InstructionType::Lw { rt, rs, imm },
            0x2b => InstructionType::Sw { rt, rs, imm },
            0x04 => InstructionType::Beq { rs, rt, imm },
            0x05 => InstructionType::Bne { rs, rt, imm },
            0x0a => InstructionType::Slti { rt, rs, imm },
            0x02 => InstructionType::J { addr },
            0x03 => InstructionType::Jal { addr },
            _ => InstructionType::Invalid,
        }
    }

    /// The assembly text of the instruction, in ASCII: the mnemonic, then
    /// registers as `$<n>`, immediates in decimal, loads and stores as
    /// `imm($base)`, and jump targets as byte addresses in eight upper-case
    /// hexadecimal digits.
    pub fn disassembly(&self) -> (r: Vec<u8>)
        ensures
            r@ == disassembly_text(*self),
    {
        let mut out: Vec<u8> = Vec::new();
        match *self {
            InstructionType::Add { rd, rs, rt } => push_three_regs(&mut out, "add ", rd, rs, rt),
            InstructionType::Sub { rd, rs, rt } => push_three_regs(&mut out, "sub ", rd, rs, rt),
            InstructionType::And { rd, rs, rt } => push_three_regs(&mut out, "and ", rd, rs, rt),
            InstructionType::Or { rd, rs, rt } => push_three_regs(&mut out, "or ", rd, rs, rt),
            InstructionType::Slt { rd, rs, rt } => push_three_regs(&mut out, "slt ", rd, rs, rt),
            InstructionType::Sll { rd, rt, shamt } => push_two_regs_imm(&mut out, "sll ", rd, rt, shamt as i64),
            InstructionType::Srl { rd, rt, shamt } => push_two_regs_imm(&mut out, "srl ", rd, rt, shamt as i64),
            InstructionType::Jr { rs } => {
                push_str(&mut out, "jr ");
                push_reg(&mut out, rs);
            },
            InstructionType::Addi { rt, rs, imm } => push_two_regs_imm(&mut out, "addi ", rt, rs, imm as i64),
            InstructionType::Lw { rt, rs, imm } => push_offset_form(&mut out, "lw ", rt, imm, rs),
            InstructionType::Sw { rt, rs, imm } => push_offset_form(&mut out, "sw ", rt, imm, rs),
            InstructionType::Beq { rs, rt, imm } => push_two_regs_imm(&mut out, "beq ", rs, rt, imm as i64),
            InstructionType::Bne { rs, rt, imm } => push_two_regs_imm(&mut out, "bne ", rs, rt, imm as i64),
            InstructionType::Slti { rt, rs, imm } => push_two_regs_imm(&mut out, "slti ", rt, rs, imm as i64),
            InstructionType::J { addr } => push_jump_form(&mut out, "j ", addr),
            InstructionType::Jal { addr } => push_jump_form(&mut out, "jal ", addr),
            InstructionType::Syscall => push_str(&mut out, "syscall"),
            InstructionType::Invalid => push_str(&mut out, "invalid"),
        }
        assert(out@ =~= disassembly_text(*self));
        out
    }

    /// The size of an instruction in bytes: always four.
    pub fn size(&self) -> (r: usize)
        ensures
            r == INSTRUCTION_SIZE,
    {
        INSTRUCTION_SIZE
    }
}

} // verus!
