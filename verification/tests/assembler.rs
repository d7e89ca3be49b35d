use carbon_asm::backend::assembler::{
    assemble, encode_instr, write_cond, write_opcode, EncodeError, PageOutput, PageWriter,
};
use carbon_asm::instr::{
    CarbonASMProgram, CarbonConds, CarbonInstr, CarbonInstrVariants, CarbonOperand, JmpAddr,
};

fn instruction(opcode: CarbonInstrVariants, operand: Vec<CarbonOperand>) -> CarbonASMProgram {
    CarbonASMProgram::Instruction(CarbonInstr { opcode, operand })
}

fn comment(text: &str) -> CarbonASMProgram {
    CarbonASMProgram::Comment(text.to_string())
}

fn note(text: &str) -> PageOutput {
    PageOutput::Comment(text.to_string())
}

fn bytes(out: &[PageOutput]) -> Vec<u8> {
    out.iter()
        .filter_map(|item| match item {
            PageOutput::Lit(b) => Some(*b),
            PageOutput::Comment(_) => None,
        })
        .collect()
}

#[test]
fn hlt_encodes_to_one_byte() {
    let out = assemble(vec![instruction(CarbonInstrVariants::Hlt, vec![])]).unwrap();
    assert_eq!(out.len(), 1024);
    assert_eq!(out[0], PageOutput::Lit(0b11111000));
    assert_eq!(out[1], PageOutput::Lit(0));
}

#[test]
fn add_register_one() {
    let out =
        assemble(vec![instruction(CarbonInstrVariants::Add, vec![CarbonOperand::Reg(1)])]).unwrap();
    assert_eq!(out[0], PageOutput::Lit(0b00001001));
}

#[test]
fn inc_without_operand() {
    let out = assemble(vec![instruction(CarbonInstrVariants::Inc, vec![])]).unwrap();
    assert_eq!(out[0], PageOutput::Lit(0b11001000));
}

#[test]
fn branch_on_carry_to_address_five() {
    let out = assemble(vec![instruction(
        CarbonInstrVariants::Brc,
        vec![CarbonOperand::Cond(CarbonConds::COUT), CarbonOperand::JmpAddr(JmpAddr::Literal(5))],
    )])
    .unwrap();
    assert_eq!(out[0], PageOutput::Lit(0b10010101));
    assert_eq!(out[1], PageOutput::Lit(0b00101000));
    assert_eq!(out[2], PageOutput::Lit(0));
}

#[test]
fn opcode_table() {
    let table = [
        (CarbonInstrVariants::Hlt, 0b11111000u8),
        (CarbonInstrVariants::Add, 0b00001000),
        (CarbonInstrVariants::Sub, 0b00010000),
        (CarbonInstrVariants::Bsb, 0b00011000),
        (CarbonInstrVariants::Or, 0b00100000),
        (CarbonInstrVariants::Nor, 0b00101000),
        (CarbonInstrVariants::And, 0b00110000),
        (CarbonInstrVariants::Nand, 0b00111000),
        (CarbonInstrVariants::Xor, 0b01000000),
        (CarbonInstrVariants::Xnr, 0b01001000),
        (CarbonInstrVariants::Ldi, 0b01010000),
        (CarbonInstrVariants::Adr, 0b01011000),
        (CarbonInstrVariants::Rld, 0b01100000),
        (CarbonInstrVariants::Rst, 0b01101000),
        (CarbonInstrVariants::Mst, 0b01110000),
        (CarbonInstrVariants::Mld, 0b01111000),
        (CarbonInstrVariants::Ics, 0b10000000),
        (CarbonInstrVariants::Jid, 0b10001000),
        (CarbonInstrVariants::Brc, 0b10010000),
        (CarbonInstrVariants::Dec, 0b10011000),
        (CarbonInstrVariants::Cmp, 0b10100000),
        (CarbonInstrVariants::Bsr, 0b10101000),
        (CarbonInstrVariants::Bsl, 0b10110000),
        (CarbonInstrVariants::Pst, 0b10111000),
        (CarbonInstrVariants::Pld, 0b11000000),
        (CarbonInstrVariants::Inc, 0b11001000),
    ];
    for (op, bits) in table {
        assert_eq!(write_opcode(op), bits, "{:?}", op);
    }
}

#[test]
fn condition_table() {
    assert_eq!(write_cond(CarbonConds::ZR), 0b001);
    assert_eq!(write_cond(CarbonConds::NZR), 0b010);
    assert_eq!(write_cond(CarbonConds::MSB), 0b011);
    assert_eq!(write_cond(CarbonConds::NMSB), 0b100);
    assert_eq!(write_cond(CarbonConds::COUT), 0b101);
    assert_eq!(write_cond(CarbonConds::NCOUT), 0b110);
    assert_eq!(write_cond(CarbonConds::UCD), 0b111);
}

#[test]
fn jump_address_keeps_its_low_five_bits() {
    assert_eq!(JmpAddr::Literal(0).unwrap(), 0);
    assert_eq!(JmpAddr::Literal(5).unwrap(), 0b00101000);
    assert_eq!(JmpAddr::Literal(31).unwrap(), 0b11111000);
    assert_eq!(JmpAddr::Literal(32).unwrap(), 0);
    assert_eq!(JmpAddr::Literal(255).unwrap(), 0b11111000);
    assert_eq!(JmpAddr::Literal(65).unwrap(), 0b00001000);
}

#[test]
fn instruction_bytes_read_back_as_the_instruction() {
    for reg in 0u8..8 {
        let instr = CarbonInstr {
            opcode: CarbonInstrVariants::Mst,
            operand: vec![CarbonOperand::Reg(reg)],
        };
        let bytes = encode_instr(&instr).unwrap();
        assert_eq!(bytes.len(), 1);
        assert_eq!(bytes[0] >> 3, 0b01110);
        assert_eq!(bytes[0] & 7, reg);
    }
    for addr in 0u8..32 {
        let instr = CarbonInstr {
            opcode: CarbonInstrVariants::Ics,
            operand: vec![
                CarbonOperand::Cond(CarbonConds::NMSB),
                CarbonOperand::JmpAddr(JmpAddr::Literal(addr)),
            ],
        };
        let bytes = encode_instr(&instr).unwrap();
        assert_eq!(bytes.len(), 2);
        assert_eq!(bytes[0] >> 3, 0b10000);
        assert_eq!(bytes[0] & 7, 0b100);
        assert_eq!(bytes[1] >> 3, addr);
        assert_eq!(bytes[1] & 7, 0);
    }
}

#[test]
fn encode_instr_with_a_label_is_an_error() {
    let instr = CarbonInstr {
        opcode: CarbonInstrVariants::Brc,
        operand: vec![
            CarbonOperand::Cond(CarbonConds::ZR),
            CarbonOperand::JmpAddr(JmpAddr::Label("x".to_string())),
        ],
    };
    assert_eq!(encode_instr(&instr), Err(EncodeError::Unresolved { name: "x".to_string() }));
}

#[test]
fn raw_bytes_fill_the_page_in_order() {
    let out = assemble(vec![
        CarbonASMProgram::Immediate(7),
        CarbonASMProgram::Immediate(8),
        CarbonASMProgram::Immediate(9),
    ])
    .unwrap();
    assert_eq!(&bytes(&out)[..4], &[7, 8, 9, 0]);
}

#[test]
fn page_directive_places_the_byte_at_its_page() {
    let out = assemble(vec![
        CarbonASMProgram::Immediate(1),
        CarbonASMProgram::PageLabel(2),
        CarbonASMProgram::Immediate(0xAB),
    ])
    .unwrap();
    assert_eq!(out.len(), 1024);
    assert_eq!(out[64], PageOutput::Lit(0xAB));
    assert_eq!(out[0], PageOutput::Lit(1));
    assert_eq!(out[1], PageOutput::Lit(0));
    assert_eq!(out[65], PageOutput::Lit(0));
}

#[test]
fn going_back_to_a_page_writes_over_it() {
    let out = assemble(vec![
        CarbonASMProgram::Immediate(1),
        CarbonASMProgram::Immediate(2),
        CarbonASMProgram::PageLabel(0),
        CarbonASMProgram::Immediate(3),
    ])
    .unwrap();
    assert_eq!(&bytes(&out)[..3], &[3, 2, 0]);
}

#[test]
fn empty_program_is_the_empty_image() {
    let out = assemble(vec![]).unwrap();
    assert_eq!(out, vec![PageOutput::Lit(0); 1024]);
}

#[test]
fn comment_follows_the_byte_before_it() {
    let out = assemble(vec![
        CarbonASMProgram::Immediate(1),
        comment("# one"),
        CarbonASMProgram::Immediate(2),
    ])
    .unwrap();
    assert_eq!(out.len(), 1025);
    assert_eq!(
        &out[..4],
        &[PageOutput::Lit(1), note("# one"), PageOutput::Lit(2), PageOutput::Lit(0)]
    );
}

#[test]
fn comment_before_any_byte_comes_first() {
    let out = assemble(vec![comment("# head"), CarbonASMProgram::Immediate(1)]).unwrap();
    assert_eq!(&out[..2], &[note("# head"), PageOutput::Lit(1)]);
}

#[test]
fn comments_at_one_offset_keep_their_order() {
    let out = assemble(vec![
        CarbonASMProgram::Immediate(1),
        comment("a"),
        comment("b"),
        comment("c"),
    ])
    .unwrap();
    assert_eq!(&out[..5], &[PageOutput::Lit(1), note("a"), note("b"), note("c"), PageOutput::Lit(0)]);
    assert_eq!(out.len(), 1027);
}

#[test]
fn comments_stay_with_their_bytes_when_pages_go_back() {
    let out = assemble(vec![
        CarbonASMProgram::PageLabel(1),
        CarbonASMProgram::Immediate(5),
        comment("late"),
        CarbonASMProgram::PageLabel(0),
        CarbonASMProgram::Immediate(6),
        comment("early"),
    ])
    .unwrap();
    assert_eq!(out.len(), 1026);
    assert_eq!(&out[..3], &[PageOutput::Lit(6), note("early"), PageOutput::Lit(0)]);
    assert_eq!(&out[33..36], &[PageOutput::Lit(5), note("late"), PageOutput::Lit(0)]);
    assert_eq!(bytes(&out).len(), 1024);
}

#[test]
fn comment_behind_the_last_byte_of_the_image() {
    let mut ast = vec![CarbonASMProgram::PageLabel(31)];
    for _ in 0..32 {
        ast.push(CarbonASMProgram::Immediate(0xFF));
    }
    ast.push(comment("end"));
    let out = assemble(ast).unwrap();
    assert_eq!(out.len(), 1025);
    assert_eq!(out[1023], PageOutput::Lit(0xFF));
    assert_eq!(out[1024], note("end"));
}

#[test]
fn page_holds_thirty_two_bytes_and_no_more() {
    let full: Vec<CarbonASMProgram> = (0..32).map(CarbonASMProgram::Immediate).collect();
    let out = assemble(full.clone()).unwrap();
    assert_eq!(out[31], PageOutput::Lit(31));
    assert_eq!(out[32], PageOutput::Lit(0));
    let mut over = full;
    over.push(CarbonASMProgram::Immediate(32));
    assert_eq!(assemble(over), Err(EncodeError::PageOverflow { page: 0 }));
}

#[test]
fn branch_that_does_not_fit_overflows() {
    let mut ast = vec![CarbonASMProgram::PageLabel(3)];
    for _ in 0..31 {
        ast.push(CarbonASMProgram::Immediate(0));
    }
    ast.push(instruction(
        CarbonInstrVariants::Brc,
        vec![CarbonOperand::Cond(CarbonConds::ZR), CarbonOperand::JmpAddr(JmpAddr::Literal(0))],
    ));
    assert_eq!(assemble(ast), Err(EncodeError::PageOverflow { page: 3 }));
}

#[test]
fn page_outside_the_image() {
    assert_eq!(
        assemble(vec![CarbonASMProgram::PageLabel(32)]),
        Err(EncodeError::PageOutOfRange { page: 32 })
    );
    assert!(assemble(vec![CarbonASMProgram::PageLabel(31)]).is_ok());
    assert_eq!(
        assemble(vec![CarbonASMProgram::PageLabel(usize::MAX)]),
        Err(EncodeError::PageOutOfRange { page: usize::MAX })
    );
}

#[test]
fn labels_left_in_the_program() {
    assert_eq!(
        assemble(vec![CarbonASMProgram::Label("a".to_string())]),
        Err(EncodeError::Unresolved { name: "a".to_string() })
    );
    assert_eq!(
        assemble(vec![CarbonASMProgram::LabelDeref("b".to_string())]),
        Err(EncodeError::Unresolved { name: "b".to_string() })
    );
    assert_eq!(
        assemble(vec![instruction(
            CarbonInstrVariants::Brc,
            vec![CarbonOperand::JmpAddr(JmpAddr::Label("c".to_string()))]
        )]),
        Err(EncodeError::Unresolved { name: "c".to_string() })
    );
}

#[test]
fn first_encoding_error_wins() {
    assert_eq!(
        assemble(vec![
            CarbonASMProgram::PageLabel(40),
            CarbonASMProgram::Label("a".to_string()),
        ]),
        Err(EncodeError::PageOutOfRange { page: 40 })
    );
}

#[test]
fn operands_beyond_the_shape_are_encoded_as_they_come() {
    let out = assemble(vec![instruction(
        CarbonInstrVariants::Add,
        vec![
            CarbonOperand::JmpAddr(JmpAddr::Literal(1)),
            CarbonOperand::Reg(2),
            CarbonOperand::JmpAddr(JmpAddr::Literal(3)),
        ],
    )])
    .unwrap();
    assert_eq!(&bytes(&out)[..4], &[0b00001000, 0b00001010, 0b00011000, 0]);
}

#[test]
fn page_writer_by_hand() {
    let mut writer = PageWriter::new();
    assert_eq!(writer.write(1), Ok(()));
    writer.write_comment("one".to_string());
    assert_eq!(writer.set_page(1), Ok(()));
    assert_eq!(writer.write_all(&vec![2, 3]), Ok(()));
    assert_eq!(writer.set_page(32), Err(EncodeError::PageOutOfRange { page: 32 }));
    assert_eq!(writer.write(4), Ok(()));
    let out = writer.get_pages();
    assert_eq!(out.len(), 1025);
    assert_eq!(&out[..3], &[PageOutput::Lit(1), note("one"), PageOutput::Lit(0)]);
    assert_eq!(&out[33..37], &[
        PageOutput::Lit(2),
        PageOutput::Lit(3),
        PageOutput::Lit(4),
        PageOutput::Lit(0),
    ]);
}

#[test]
fn page_writer_refuses_the_thirty_third_byte() {
    let mut writer = PageWriter::new();
    assert_eq!(writer.write_all(&vec![9; 32]), Ok(()));
    assert_eq!(writer.write(1), Err(EncodeError::PageOverflow { page: 0 }));
    assert_eq!(writer.write_all(&vec![1]), Err(EncodeError::PageOverflow { page: 0 }));
    assert_eq!(writer.write_all(&vec![]), Ok(()));
    assert_eq!(bytes(&writer.get_pages())[..33], [vec![9; 32], vec![0]].concat()[..]);
}
