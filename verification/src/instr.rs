//! The program model: opcodes, conditions, operands and statements.

use vstd::prelude::*;

verus! {

/// The mnemonics of the instruction set.
#[derive(PartialEq, Eq, Structural, Debug, Clone, Copy)]
pub enum CarbonInstrVariants {
    Hlt,
    Add,
    Sub,
    Bsb,
    Or,
    Nor,
    And,
    Nand,
    Xor,
    Xnr,
    Ldi,
    Adr,
    Rld,
    Rst,
    Mst,
    Mld,
    Ics,
    Jid,
    Brc,
    Dec,
    Cmp,
    Bsr,
    Bsl,
    Pst,
    Pld,
    Inc,
}

/// The branch conditions.
#[derive(PartialEq, Eq, Structural, Debug, Clone, Copy)]
pub enum CarbonConds {
    ZR,
    NZR,
    MSB,
    NMSB,
    COUT,
    NCOUT,
    UCD,
}

/// The operands that a mnemonic takes.
#[derive(PartialEq, Eq, Structural, Debug, Clone, Copy)]
pub enum OperandShape {
    /// No operand.
    Bare,
    /// One register.
    Register,
    /// One condition, then one jump target.
    Branch,
}

/// The operand shape of each mnemonic.
pub open spec fn operand_shape(op: CarbonInstrVariants) -> OperandShape {
    match op {
        CarbonInstrVariants::Hlt | CarbonInstrVariants::Inc | CarbonInstrVariants::Dec =>
            OperandShape::Bare,
        CarbonInstrVariants::Ics | CarbonInstrVariants::Brc => OperandShape::Branch,
        _ => OperandShape::Register,
    }
}

/// The operand shape of a mnemonic.
pub fn shape_of(op: CarbonInstrVariants) -> (shape: OperandShape)
    ensures
        shape == operand_shape(op),
{
    match op {
        CarbonInstrVariants::Hlt | CarbonInstrVariants::Inc | CarbonInstrVariants::Dec =>
            OperandShape::Bare,
        CarbonInstrVariants::Ics | CarbonInstrVariants::Brc => OperandShape::Branch,
        _ => OperandShape::Register,
    }
}

/// Where a jump goes: a literal address, or a label that has yet to be
/// resolved to one.
#[derive(PartialEq, Eq, Debug, Clone)]
pub enum JmpAddr {
    Literal(u8),
    Label(String),
}

/// The mathematical value of a [`JmpAddr`].
pub enum JmpAddrView {
    Literal(u8),
    Label(Seq<char>),
}

impl View for JmpAddr {
    type V = JmpAddrView;

    open spec fn view(&self) -> JmpAddrView {
        match self {
            JmpAddr::Literal(a) => JmpAddrView::Literal(*a),
            JmpAddr::Label(name) => JmpAddrView::Label(name@),
        }
    }
}

impl DeepView for JmpAddr {
    type V = JmpAddrView;

    open spec fn deep_view(&self) -> JmpAddrView {
        self@
    }
}

/// The byte that carries a jump address: the address moved up by three
/// bits, its low three bits left zero. Only the low five bits of the
/// address fit.
pub open spec fn address_byte(addr: u8) -> u8 {
    ((addr % 32) * 8) as u8
}

impl JmpAddr {
    /// The address byte of a literal jump target.
    pub fn unwrap(&self) -> (byte: u8)
        requires
            self is Literal,
        ensures
            byte == address_byte(self->Literal_0),
    {
        match self {
            JmpAddr::Literal(a) => {
                let a: u8 = *a;
                assert(a << 3 == ((a % 32) * 8) as u8) by (bit_vector);
                a << 3
            },
            JmpAddr::Label(_) => 0,
        }
    }

    /// A copy of this jump target.
    pub fn duplicate(&self) -> (copy: JmpAddr)
        ensures
            copy@ == self@,
    {
        match self {
            JmpAddr::Literal(a) => JmpAddr::Literal(*a),
            JmpAddr::Label(name) => JmpAddr::Label(name.clone()),
        }
    }
}

/// One operand of an instruction.
#[derive(PartialEq, Eq, Debug, Clone)]
pub enum CarbonOperand {
    Cond(CarbonConds),
    Reg(u8),
    JmpAddr(JmpAddr),
}

/// The mathematical value of a [`CarbonOperand`].
pub enum CarbonOperandView {
    Cond(CarbonConds),
    Reg(u8),
    JmpAddr(JmpAddrView),
}

impl View for CarbonOperand {
    type V = CarbonOperandView;

    open spec fn view(&self) -> CarbonOperandView {
        match self {
            CarbonOperand::Cond(c) => CarbonOperandView::Cond(*c),
            CarbonOperand::Reg(r) => CarbonOperandView::Reg(*r),
            CarbonOperand::JmpAddr(a) => CarbonOperandView::JmpAddr(a@),
        }
    }
}

impl DeepView for CarbonOperand {
    type V = CarbonOperandView;

    open spec fn deep_view(&self) -> CarbonOperandView {
        self@
    }
}

impl CarbonOperand {
    /// A copy of this operand.
    pub fn duplicate(&self) -> (copy: CarbonOperand)
        ensures
            copy@ == self@,
    {
        match self {
            CarbonOperand::Cond(c) => CarbonOperand::Cond(*c),
            CarbonOperand::Reg(r) => CarbonOperand::Reg(*r),
            CarbonOperand::JmpAddr(a) => CarbonOperand::JmpAddr(a.duplicate()),
        }
    }
}

/// An opcode with its operands, in the order in which they are encoded.
#[derive(PartialEq, Eq, Debug, Clone)]
pub struct CarbonInstr {
    pub opcode: CarbonInstrVariants,
    pub operand: Vec<CarbonOperand>,
}

/// The mathematical value of a [`CarbonInstr`].
pub struct CarbonInstrView {
    pub opcode: CarbonInstrVariants,
    pub operand: Seq<CarbonOperandView>,
}

impl View for CarbonInstr {
    type V = CarbonInstrView;

    open spec fn view(&self) -> CarbonInstrView {
        CarbonInstrView { opcode: self.opcode, operand: self.operand.deep_view() }
    }
}

impl DeepView for CarbonInstr {
    type V = CarbonInstrView;

    open spec fn deep_view(&self) -> CarbonInstrView {
        self@
    }
}

impl CarbonInstr {
    /// A copy of this instruction.
    pub fn duplicate(&self) -> (copy: CarbonInstr)
        ensures
            copy@ == self@,
    {
        let mut operand: Vec<CarbonOperand> = Vec::new();
        let mut k: usize = 0;
        while k < self.operand.len()
            invariant
                k <= self.operand.len(),
                operand.deep_view() == self.operand.deep_view().take(k as int),
            decreases self.operand.len() - k,
        {
            let ghost before = operand.deep_view();
            operand.push(self.operand[k].duplicate());
            assert(operand.deep_view() =~= before.push(self.operand[k as int]@));
            assert(before.push(self.operand[k as int]@) =~= self.operand.deep_view().take(k + 1));
            k += 1;
        }
        assert(operand.deep_view() =~= self.operand.deep_view());
        CarbonInstr { opcode: self.opcode, operand }
    }
}

/// One statement of a program. The order of the statements of a program
/// is the order in which they are emitted.
#[derive(PartialEq, Eq, Debug, Clone)]
pub enum CarbonASMProgram {
    Instruction(CarbonInstr),
    Immediate(u8),
    Comment(String),
    Label(String),
    PageLabel(usize),
    LabelDeref(String),
}

/// The mathematical value of a [`CarbonASMProgram`] statement.
pub enum CarbonASMProgramView {
    Instruction(CarbonInstrView),
    Immediate(u8),
    Comment(Seq<char>),
    Label(Seq<char>),
    PageLabel(usize),
    LabelDeref(Seq<char>),
}

impl View for CarbonASMProgram {
    type V = CarbonASMProgramView;

    open spec fn view(&self) -> CarbonASMProgramView {
        match self {
            CarbonASMProgram::Instruction(i) => CarbonASMProgramView::Instruction(i@),
            CarbonASMProgram::Immediate(v) => CarbonASMProgramView::Immediate(*v),
            CarbonASMProgram::Comment(text) => CarbonASMProgramView::Comment(text@),
            CarbonASMProgram::Label(name) => CarbonASMProgramView::Label(name@),
            CarbonASMProgram::PageLabel(page) => CarbonASMProgramView::PageLabel(*page),
            CarbonASMProgram::LabelDeref(name) => CarbonASMProgramView::LabelDeref(name@),
        }
    }
}

impl DeepView for CarbonASMProgram {
    type V = CarbonASMProgramView;

    open spec fn deep_view(&self) -> CarbonASMProgramView {
        self@
    }
}

/// How many of the first `n` operands are jump targets.
pub open spec fn jump_count(operands: Seq<CarbonOperandView>, n: int) -> int
    decreases n,
{
    if n <= 0 {
        0
    } else if operands[n - 1] is JmpAddr {
        jump_count(operands, n - 1) + 1
    } else {
        jump_count(operands, n - 1)
    }
}

/// The number of bytes that a statement takes in the image: a raw byte
/// and a label reference take one, an instruction one and one more for
/// each jump target among its operands, all others none.
pub open spec fn size_of(stmt: CarbonASMProgramView) -> int {
    match stmt {
        CarbonASMProgramView::Immediate(_) => 1,
        CarbonASMProgramView::LabelDeref(_) => 1,
        CarbonASMProgramView::Instruction(instr) => 1 + jump_count(
            instr.operand,
            instr.operand.len() as int,
        ),
        _ => 0,
    }
}

/// Whether the operands of an instruction are what its mnemonic takes.
pub open spec fn well_shaped(instr: CarbonInstrView) -> bool {
    match operand_shape(instr.opcode) {
        OperandShape::Bare => instr.operand.len() == 0,
        OperandShape::Register => instr.operand.len() == 1 && instr.operand[0] is Reg,
        OperandShape::Branch => instr.operand.len() == 2 && instr.operand[0] is Cond
            && instr.operand[1] is JmpAddr,
    }
}

/// Whether an instruction is well shaped and holds only what its
/// encoding has room for: a register from 0 to 7, and a literal jump
/// address from 0 to 31.
pub open spec fn encodable(instr: CarbonInstrView) -> bool {
    &&& well_shaped(instr)
    &&& forall|k: int|
        0 <= k < instr.operand.len() ==> match #[trigger] instr.operand[k] {
            CarbonOperandView::Reg(r) => r < 8,
            CarbonOperandView::JmpAddr(JmpAddrView::Literal(a)) => a < 32,
            CarbonOperandView::JmpAddr(JmpAddrView::Label(_)) => false,
            CarbonOperandView::Cond(_) => true,
        }
}

impl CarbonASMProgram {
    /// A copy of this statement.
    pub fn duplicate(&self) -> (copy: CarbonASMProgram)
        ensures
            copy@ == self@,
    {
        match self {
            CarbonASMProgram::Instruction(i) => CarbonASMProgram::Instruction(i.duplicate()),
            CarbonASMProgram::Immediate(v) => CarbonASMProgram::Immediate(*v),
            CarbonASMProgram::Comment(text) => CarbonASMProgram::Comment(text.clone()),
            CarbonASMProgram::Label(name) => CarbonASMProgram::Label(name.clone()),
            CarbonASMProgram::PageLabel(page) => CarbonASMProgram::PageLabel(*page),
            CarbonASMProgram::LabelDeref(name) => CarbonASMProgram::LabelDeref(name.clone()),
        }
    }
}

} // verus!
