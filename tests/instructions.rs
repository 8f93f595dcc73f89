use mips_sim::instructions::InstructionType;

#[test]
fn test_decode_add() {
    // add $1, $2, $3
    let instruction = 0x00430820u32;
    let decoded = InstructionType::decode(instruction);
    if let InstructionType::Add { rd, rs, rt } = decoded {
        assert_eq!(rd, 1);
        assert_eq!(rs, 2);
        assert_eq!(rt, 3);
    } else {
        panic!("Expected Add instruction");
    }
}

#[test]
fn test_decode_addi() {
    // addi $1, $2, 100
    let instruction = 0x20410064u32;
    let decoded = InstructionType::decode(instruction);
    if let InstructionType::Addi { rt, rs, imm } = decoded {
        assert_eq!(rt, 1);
        assert_eq!(rs, 2);
        assert_eq!(imm, 100);
    } else {
        panic!("Expected Addi instruction");
    }
}

#[test]
fn decode_examples_are_exact() {
    assert_eq!(InstructionType::decode(0x00430820), InstructionType::Add { rd: 1, rs: 2, rt: 3 });
    assert_eq!(InstructionType::decode(0x20410064), InstructionType::Addi { rt: 1, rs: 2, imm: 100 });
}

#[test]
fn decode_is_deterministic() {
    for w in [0u32, 0x00430820, 0x20410064, 0xffff_ffff, 0x1234_5678, 0x8c41_fffc] {
        assert_eq!(InstructionType::decode(w), InstructionType::decode(w));
    }
}

#[test]
fn decode_r_type_table() {
    // sub $4, $5, $6
    assert_eq!(InstructionType::decode(0x00a62022), InstructionType::Sub { rd: 4, rs: 5, rt: 6 });
    // and $7, $8, $9
    assert_eq!(InstructionType::decode(0x01093824), InstructionType::And { rd: 7, rs: 8, rt: 9 });
    // or $7, $8, $9
    assert_eq!(InstructionType::decode(0x01093825), InstructionType::Or { rd: 7, rs: 8, rt: 9 });
    // slt $1, $2, $3
    assert_eq!(InstructionType::decode(0x0043082a), InstructionType::Slt { rd: 1, rs: 2, rt: 3 });
    // sll $2, $3, 4
    assert_eq!(InstructionType::decode(0x00031100), InstructionType::Sll { rd: 2, rt: 3, shamt: 4 });
    // srl $2, $3, 31
    assert_eq!(InstructionType::decode(0x000317c2), InstructionType::Srl { rd: 2, rt: 3, shamt: 31 });
    // jr $31
    assert_eq!(InstructionType::decode(0x03e00008), InstructionType::Jr { rs: 31 });
    assert_eq!(InstructionType::decode(0x0000000c), InstructionType::Syscall);
}

#[test]
fn decode_i_and_j_type_table() {
    // lw $1, -4($2)
    assert_eq!(InstructionType::decode(0x8c41fffc), InstructionType::Lw { rt: 1, rs: 2, imm: -4 });
    // sw $1, 8($2)
    assert_eq!(InstructionType::decode(0xac410008), InstructionType::Sw { rt: 1, rs: 2, imm: 8 });
    // beq $1, $2, 3
    assert_eq!(InstructionType::decode(0x10220003), InstructionType::Beq { rs: 1, rt: 2, imm: 3 });
    // bne $1, $2, -1
    assert_eq!(InstructionType::decode(0x1422ffff), InstructionType::Bne { rs: 1, rt: 2, imm: -1 });
    // slti $1, $2, -32768
    assert_eq!(InstructionType::decode(0x28418000), InstructionType::Slti { rt: 1, rs: 2, imm: -32768 });
    assert_eq!(InstructionType::decode(0x08100004), InstructionType::J { addr: 0x100004 });
    assert_eq!(InstructionType::decode(0x0fffffff), InstructionType::Jal { addr: 0x3ffffff });
}

#[test]
fn decode_unknown_is_invalid() {
    // unknown function code under opcode 0
    assert_eq!(InstructionType::decode(0x00000001), InstructionType::Invalid);
    // unknown opcode
    assert_eq!(InstructionType::decode(0xfc000000), InstructionType::Invalid);
    assert_eq!(InstructionType::decode(0xffffffff), InstructionType::Invalid);
}

#[test]
fn instruction_size_is_four() {
    assert_eq!(InstructionType::decode(0x00430820).size(), 4);
    assert_eq!(InstructionType::Invalid.size(), 4);
}

fn text(w: u32) -> String {
    String::from_utf8(InstructionType::decode(w).disassembly()).unwrap()
}

#[test]
fn disassembly_of_each_form() {
    assert_eq!(text(0x00430820), "add $1, $2, $3");
    assert_eq!(text(0x00a62022), "sub $4, $5, $6");
    assert_eq!(text(0x01093824), "and $7, $8, $9");
    assert_eq!(text(0x01093825), "or $7, $8, $9");
    assert_eq!(text(0x0043082a), "slt $1, $2, $3");
    assert_eq!(text(0x000317c2), "srl $2, $3, 31");
    assert_eq!(text(0x00031100), "sll $2, $3, 4");
    assert_eq!(text(0x03e00008), "jr $31");
    assert_eq!(text(0x20410064), "addi $1, $2, 100");
    assert_eq!(text(0x8c41fffc), "lw $1, -4($2)");
    assert_eq!(text(0xac410008), "sw $1, 8($2)");
    assert_eq!(text(0x10220003), "beq $1, $2, 3");
    assert_eq!(text(0x1422ffff), "bne $1, $2, -1");
    assert_eq!(text(0x28418000), "slti $1, $2, -32768");
    assert_eq!(text(0x08100004), "j 0x00400010");
    assert_eq!(text(0x0fffffff), "jal 0x0FFFFFFC");
    assert_eq!(text(0x0000000c), "syscall");
    assert_eq!(text(0xffffffff), "invalid");
}
