//! Encoding: from resolved statements to the paged memory image.

use crate::instr::{
    address_byte, encodable, jump_count, operand_shape, CarbonASMProgram, CarbonASMProgramView,
    CarbonConds, CarbonInstr, CarbonInstrVariants, CarbonInstrView, CarbonOperand,
    CarbonOperandView, JmpAddr, JmpAddrView, OperandShape,
};
use vstd::prelude::*;

verus! {

/// The number of pages of the memory image.
pub const PAGE_COUNT: usize = 32;

/// The number of bytes of one page.
pub const PAGE_SIZE: usize = 32;

/// The number of bytes of the memory image.
pub const MEMORY_SIZE: usize = 1024;

/// One item of the encoded stream: a byte of the image, or an annotation
/// to the byte before it.
#[derive(PartialEq, Eq, Debug, Clone)]
pub enum PageOutput {
    Lit(u8),
    Comment(String),
}

/// The mathematical value of a [`PageOutput`].
pub enum PageOutputView {
    Lit(u8),
    Comment(Seq<char>),
}

impl View for PageOutput {
    type V = PageOutputView;

    open spec fn view(&self) -> PageOutputView {
        match self {
            PageOutput::Lit(b) => PageOutputView::Lit(*b),
            PageOutput::Comment(text) => PageOutputView::Comment(text@),
        }
    }
}

impl DeepView for PageOutput {
    type V = PageOutputView;

    open spec fn deep_view(&self) -> PageOutputView {
        self@
    }
}

/// Why a program cannot be laid out in the image.
#[derive(PartialEq, Eq, Debug, Clone)]
pub enum EncodeError {
    /// A byte was to be written to a page that already holds 32.
    PageOverflow { page: usize },
    /// A page directive names a page that the image does not have.
    PageOutOfRange { page: usize },
    /// A label definition, a label reference or a label as a jump target
    /// was left in the program.
    Unresolved { name: String },
}

/// The mathematical value of an [`EncodeError`].
pub enum EncodeErrorView {
    PageOverflow { page: int },
    PageOutOfRange { page: int },
    Unresolved { name: Seq<char> },
}

impl View for EncodeError {
    type V = EncodeErrorView;

    open spec fn view(&self) -> EncodeErrorView {
        match self {
            EncodeError::PageOverflow { page } => EncodeErrorView::PageOverflow {
                page: *page as int,
            },
            EncodeError::PageOutOfRange { page } => EncodeErrorView::PageOutOfRange {
                page: *page as int,
            },
            EncodeError::Unresolved { name } => EncodeErrorView::Unresolved { name: name@ },
        }
    }
}

/// The bit pattern of each mnemonic, in the high bits of the byte.
pub open spec fn opcode_bits(op: CarbonInstrVariants) -> u8 {
    match op {
        CarbonInstrVariants::Hlt => 0b11111000,
        CarbonInstrVariants::Add => 0b00001000,
        CarbonInstrVariants::Sub => 0b00010000,
        CarbonInstrVariants::Bsb => 0b00011000,
        CarbonInstrVariants::Or => 0b00100000,
        CarbonInstrVariants::Nor => 0b00101000,
        CarbonInstrVariants::And => 0b00110000,
        CarbonInstrVariants::Nand => 0b00111000,
        CarbonInstrVariants::Xor => 0b01000000,
        CarbonInstrVariants::Xnr => 0b01001000,
        CarbonInstrVariants::Ldi => 0b01010000,
        CarbonInstrVariants::Adr => 0b01011000,
        CarbonInstrVariants::Rld => 0b01100000,
        CarbonInstrVariants::Rst => 0b01101000,
        CarbonInstrVariants::Mst => 0b01110000,
        CarbonInstrVariants::Mld => 0b01111000,
        CarbonInstrVariants::Ics => 0b10000000,
        CarbonInstrVariants::Jid => 0b10001000,
        CarbonInstrVariants::Brc => 0b10010000,
        CarbonInstrVariants::Dec => 0b10011000,
        CarbonInstrVariants::Cmp => 0b10100000,
        CarbonInstrVariants::Bsr => 0b10101000,
        CarbonInstrVariants::Bsl => 0b10110000,
        CarbonInstrVariants::Pst => 0b10111000,
        CarbonInstrVariants::Pld => 0b11000000,
        CarbonInstrVariants::Inc => 0b11001000,
    }
}

/// The three-bit code of each condition.
pub open spec fn cond_bits(cond: CarbonConds) -> u8 {
    match cond {
        CarbonConds::ZR => 0b001,
        CarbonConds::NZR => 0b010,
        CarbonConds::MSB => 0b011,
        CarbonConds::NMSB => 0b100,
        CarbonConds::COUT => 0b101,
        CarbonConds::NCOUT => 0b110,
        CarbonConds::UCD => 0b111,
    }
}

/// The bit pattern of a mnemonic.
pub fn write_opcode(op: CarbonInstrVariants) -> (word: u8)
    ensures
        word == opcode_bits(op),
{
    match op {
        CarbonInstrVariants::Hlt => 0b11111000,
        CarbonInstrVariants::Add => 0b00001000,
        CarbonInstrVariants::Sub => 0b00010000,
        CarbonInstrVariants::Bsb => 0b00011000,
        CarbonInstrVariants::Or => 0b00100000,
        CarbonInstrVariants::Nor => 0b00101000,
        CarbonInstrVariants::And => 0b00110000,
        CarbonInstrVariants::Nand => 0b00111000,
        CarbonInstrVariants::Xor => 0b01000000,
        CarbonInstrVariants::Xnr => 0b01001000,
        CarbonInstrVariants::Ldi => 0b01010000,
        CarbonInstrVariants::Adr => 0b01011000,
        CarbonInstrVariants::Rld => 0b01100000,
        CarbonInstrVariants::Rst => 0b01101000,
        CarbonInstrVariants::Mst => 0b01110000,
        CarbonInstrVariants::Mld => 0b01111000,
        CarbonInstrVariants::Ics => 0b10000000,
        CarbonInstrVariants::Jid => 0b10001000,
        CarbonInstrVariants::Brc => 0b10010000,
        CarbonInstrVariants::Dec => 0b10011000,
        CarbonInstrVariants::Cmp => 0b10100000,
        CarbonInstrVariants::Bsr => 0b10101000,
        CarbonInstrVariants::Bsl => 0b10110000,
        CarbonInstrVariants::Pst => 0b10111000,
        CarbonInstrVariants::Pld => 0b11000000,
        CarbonInstrVariants::Inc => 0b11001000,
    }
}

/// The three-bit code of a condition.
pub fn write_cond(cond: CarbonConds) -> (word: u8)
    ensures
        word == cond_bits(cond),
{
    match cond {
        CarbonConds::ZR => 0b001,
        CarbonConds::NZR => 0b010,
        CarbonConds::MSB => 0b011,
        CarbonConds::NMSB => 0b100,
        CarbonConds::COUT => 0b101,
        CarbonConds::NCOUT => 0b110,
        CarbonConds::UCD => 0b111,
    }
}

/// While the operands of an instruction are encoded: the bytes that are
/// complete, and the working byte.
pub struct Partial {
    pub flushed: Seq<u8>,
    pub word: u8,
}

/// The encoding after the first `n` operands. The working byte starts
/// as the opcode's bit pattern. A register or a condition is joined
/// into its low bits. A jump target completes the working byte and
/// begins a new one, which is the target's address byte.
pub open spec fn operands_encoded(
    op: CarbonInstrVariants,
    operands: Seq<CarbonOperandView>,
    n: int,
) -> Result<Partial, EncodeErrorView>
    decreases n,
{
    if n <= 0 {
        Ok(Partial { flushed: seq![], word: opcode_bits(op) })
    } else {
        match operands_encoded(op, operands, n - 1) {
            Err(e) => Err(e),
            Ok(p) => match operands[n - 1] {
                CarbonOperandView::Cond(c) => Ok(
                    Partial { flushed: p.flushed, word: p.word | cond_bits(c) },
                ),
                CarbonOperandView::Reg(r) => Ok(Partial { flushed: p.flushed, word: p.word | r }),
                CarbonOperandView::JmpAddr(JmpAddrView::Literal(a)) => Ok(
                    Partial { flushed: p.flushed.push(p.word), word: address_byte(a) },
                ),
                CarbonOperandView::JmpAddr(JmpAddrView::Label(name)) => Err(
                    EncodeErrorView::Unresolved { name },
                ),
            },
        }
    }
}

/// The bytes of an instruction: one, and one more for each jump target
/// among its operands. The first label among the operands is an error.
pub open spec fn instr_bytes(instr: CarbonInstrView) -> Result<Seq<u8>, EncodeErrorView> {
    match operands_encoded(instr.opcode, instr.operand, instr.operand.len() as int) {
        Err(e) => Err(e),
        Ok(p) => Ok(p.flushed.push(p.word)),
    }
}

/// An annotation, and the absolute offset of the cursor at which it was
/// recorded.
pub struct Note {
    pub text: Seq<char>,
    pub offset: int,
}

/// The mathematical value of a [`PageWriter`]: the cursor, the 1024
/// bytes of the image in page order, and the annotations in the order in
/// which they were recorded.
pub struct PageWriterView {
    pub page: int,
    pub ptr: int,
    pub bytes: Seq<u8>,
    pub notes: Seq<Note>,
}

impl PageWriterView {
    /// The empty image: every byte zero, the cursor at its start.
    pub open spec fn fresh() -> PageWriterView {
        PageWriterView {
            page: 0,
            ptr: 0,
            bytes: Seq::new(MEMORY_SIZE as nat, |i: int| 0u8),
            notes: seq![],
        }
    }

    /// The absolute offset of the cursor.
    pub open spec fn offset(self) -> int {
        self.page * 32 + self.ptr
    }

    /// The cursor is within the image.
    pub open spec fn wf(self) -> bool {
        &&& 0 <= self.page < 32
        &&& 0 <= self.ptr <= 32
        &&& self.bytes.len() == 1024
        &&& forall|k: int| 0 <= k < self.notes.len() ==> 0 <= (#[trigger] self.notes[k]).offset <= 1024
    }

    /// The cursor set to the start of page `page`.
    pub open spec fn with_page(self, page: int) -> Result<PageWriterView, EncodeErrorView> {
        if page < 32 {
            Ok(PageWriterView { page, ptr: 0, ..self })
        } else {
            Err(EncodeErrorView::PageOutOfRange { page })
        }
    }

    /// `value` written at the cursor, and the cursor moved on by one.
    pub open spec fn with_byte(self, value: u8) -> Result<PageWriterView, EncodeErrorView> {
        if self.ptr < 32 {
            Ok(
                PageWriterView {
                    ptr: self.ptr + 1,
                    bytes: self.bytes.update(self.offset(), value),
                    ..self
                },
            )
        } else {
            Err(EncodeErrorView::PageOverflow { page: self.page })
        }
    }

    /// The first `n` of `values` written one after the other.
    pub open spec fn with_bytes(self, values: Seq<u8>, n: int) -> Result<
        PageWriterView,
        EncodeErrorView,
    >
        decreases n,
    {
        if n <= 0 {
            Ok(self)
        } else {
            match self.with_bytes(values, n - 1) {
                Err(e) => Err(e),
                Ok(w) => w.with_byte(values[n - 1]),
            }
        }
    }

    /// `text` recorded as an annotation at the cursor, which stays.
    pub open spec fn with_comment(self, text: Seq<char>) -> PageWriterView {
        PageWriterView { notes: self.notes.push(Note { text, offset: self.offset() }), ..self }
    }

    /// The effect of one statement.
    pub open spec fn step(self, stmt: CarbonASMProgramView) -> Result<
        PageWriterView,
        EncodeErrorView,
    > {
        match stmt {
            CarbonASMProgramView::PageLabel(page) => self.with_page(page as int),
            CarbonASMProgramView::Immediate(value) => self.with_byte(value),
            CarbonASMProgramView::Comment(text) => Ok(self.with_comment(text)),
            CarbonASMProgramView::Instruction(instr) => match instr_bytes(instr) {
                Err(e) => Err(e),
                Ok(bytes) => self.with_bytes(bytes, bytes.len() as int),
            },
            CarbonASMProgramView::Label(name) => Err(EncodeErrorView::Unresolved { name }),
            CarbonASMProgramView::LabelDeref(name) => Err(EncodeErrorView::Unresolved { name }),
        }
    }

    /// The annotations among the first `n` that were recorded at
    /// absolute offset `at`, in the order in which they were recorded.
    pub open spec fn notes_at(self, at: int, n: int) -> Seq<PageOutputView>
        decreases n,
    {
        if n <= 0 {
            seq![]
        } else if self.notes[n - 1].offset == at {
            self.notes_at(at, n - 1).push(PageOutputView::Comment(self.notes[n - 1].text))
        } else {
            self.notes_at(at, n - 1)
        }
    }

    /// The stream up to absolute offset `end`: the bytes below `end` in
    /// their order, and before each byte the annotations recorded at its
    /// offset, which so follow the byte before it.
    pub open spec fn stream(self, end: int) -> Seq<PageOutputView>
        decreases end,
    {
        if end <= 0 {
            seq![]
        } else {
            (self.stream(end - 1) + self.notes_at(end - 1, self.notes.len() as int)).push(
                PageOutputView::Lit(self.bytes[end - 1]),
            )
        }
    }

    /// The whole stream: all 1024 bytes in page order, each annotation
    /// directly after the byte before the offset at which it was
    /// recorded, those recorded at the end of the image last.
    pub open spec fn output(self) -> Seq<PageOutputView> {
        self.stream(1024) + self.notes_at(1024, self.notes.len() as int)
    }
}

/// The image after the first `n` statements, or the first error among
/// them.
pub open spec fn encoded(stmts: Seq<CarbonASMProgramView>, n: int) -> Result<
    PageWriterView,
    EncodeErrorView,
>
    decreases n,
{
    if n <= 0 {
        Ok(PageWriterView::fresh())
    } else {
        match encoded(stmts, n - 1) {
            Err(e) => Err(e),
            Ok(w) => w.step(stmts[n - 1]),
        }
    }
}

/// The stream that a program is encoded to, or the first error in it.
pub open spec fn assembled(stmts: Seq<CarbonASMProgramView>) -> Result<
    Seq<PageOutputView>,
    EncodeErrorView,
> {
    match encoded(stmts, stmts.len() as int) {
        Err(e) => Err(e),
        Ok(w) => Ok(w.output()),
    }
}

/// The mathematical value of what [`assemble`] returns.
pub open spec fn assemble_result_view(res: Result<Vec<PageOutput>, EncodeError>) -> Result<
    Seq<PageOutputView>,
    EncodeErrorView,
> {
    match res {
        Ok(out) => Ok(out.deep_view()),
        Err(e) => Err(e@),
    }
}

/// An error among the first statements is the error of the program.
pub proof fn lemma_encoded_error_stays(stmts: Seq<CarbonASMProgramView>, n: int, m: int)
    requires
        0 <= n <= m,
        encoded(stmts, n) is Err,
    ensures
        encoded(stmts, m) == encoded(stmts, n),
    decreases m - n,
{
    if n < m {
        lemma_encoded_error_stays(stmts, n, m - 1);
    }
}

/// The image of 32 pages of 32 bytes, with a cursor and the annotations
/// recorded so far.
pub struct PageWriter {
    current_page: usize,
    current_page_ptr: usize,
    pages: Vec<u8>,
    comments: Vec<(String, usize)>,
}

impl View for PageWriter {
    type V = PageWriterView;

    closed spec fn view(&self) -> PageWriterView {
        PageWriterView {
            page: self.current_page as int,
            ptr: self.current_page_ptr as int,
            bytes: self.pages@,
            notes: Seq::new(
                self.comments@.len(),
                |k: int| Note { text: self.comments@[k].0@, offset: self.comments@[k].1 as int },
            ),
        }
    }
}

impl PageWriter {
    /// The empty image.
    pub fn new() -> (writer: PageWriter)
        ensures
            writer@ == PageWriterView::fresh(),
            writer@.wf(),
    {
        let mut pages: Vec<u8> = Vec::new();
        while pages.len() < MEMORY_SIZE
            invariant
                pages.len() <= MEMORY_SIZE,
                forall|i: int| 0 <= i < pages.len() ==> pages[i] == 0,
            decreases MEMORY_SIZE - pages.len(),
        {
            pages.push(0);
        }
        let writer = PageWriter {
            current_page: 0,
            current_page_ptr: 0,
            pages,
            comments: Vec::new(),
        };
        assert(writer@.bytes =~= PageWriterView::fresh().bytes);
        assert(writer@.notes =~= PageWriterView::fresh().notes);
        writer
    }

    /// Sets the cursor to the start of page `page`, if the image has
    /// that page.
    pub fn set_page(&mut self, page: usize) -> (res: Result<(), EncodeError>)
        requires
            old(self)@.wf(),
        ensures
            final(self)@.wf(),
            match old(self)@.with_page(page as int) {
                Ok(w) => res is Ok && final(self)@ == w,
                Err(e) => res is Err && res->Err_0@ == e && final(self)@ == old(self)@,
            },
    {
        if page < PAGE_COUNT {
            self.current_page = page;
            self.current_page_ptr = 0;
            Ok(())
        } else {
            Err(EncodeError::PageOutOfRange { page })
        }
    }

    /// Writes `value` at the cursor and moves the cursor on by one, if
    /// the page is not full.
    pub fn write(&mut self, value: u8) -> (res: Result<(), EncodeError>)
        requires
            old(self)@.wf(),
        ensures
            final(self)@.wf(),
            match old(self)@.with_byte(value) {
                Ok(w) => res is Ok && final(self)@ == w,
                Err(e) => res is Err && res->Err_0@ == e && final(self)@ == old(self)@,
            },
    {
        if self.current_page_ptr < PAGE_SIZE {
            let at = self.current_page * PAGE_SIZE + self.current_page_ptr;
            self.pages.set(at, value);
            self.current_page_ptr += 1;
            Ok(())
        } else {
            Err(EncodeError::PageOverflow { page: self.current_page })
        }
    }

    /// Records `value` as an annotation at the cursor.
    pub fn write_comment(&mut self, value: String)
        requires
            old(self)@.wf(),
        ensures
            final(self)@.wf(),
            final(self)@ == old(self)@.with_comment(value@),
    {
        let at = self.current_page * PAGE_SIZE + self.current_page_ptr;
        self.comments.push((value, at));
        assert(self@.notes =~= old(self)@.with_comment(value@).notes);
    }

    /// Writes `values` one after the other, if the page has room for
    /// them all; else nothing is written.
    pub fn write_all(&mut self, values: &Vec<u8>) -> (res: Result<(), EncodeError>)
        requires
            old(self)@.wf(),
        ensures
            final(self)@.wf(),
            match old(self)@.with_bytes(values@, values.len() as int) {
                Ok(w) => res is Ok && final(self)@ == w,
                Err(e) => res is Err && res->Err_0@ == e && final(self)@ == old(self)@,
            },
    {
        proof {
            lemma_with_bytes_room(self@, values@, values.len() as int);
        }
        if values.len() > PAGE_SIZE - self.current_page_ptr {
            return Err(EncodeError::PageOverflow { page: self.current_page });
        }
        let mut k: usize = 0;
        while k < values.len()
            invariant
                k <= values.len(),
                self@.wf(),
                old(self)@.with_bytes(values@, values.len() as int) is Ok,
                old(self)@.with_bytes(values@, k as int) == Ok::<PageWriterView, EncodeErrorView>(
                    self@,
                ),
            decreases values.len() - k,
        {
            proof {
                if old(self)@.with_bytes(values@, k + 1) is Err {
                    lemma_with_bytes_error_stays(
                        old(self)@,
                        values@,
                        k + 1,
                        values.len() as int,
                    );
                }
            }
            let written = self.write(values[k]);
            assert(written is Ok);
            k += 1;
        }
        Ok(())
    }

    /// Appends to `out` the annotations recorded at absolute offset
    /// `at`, in the order in which they were recorded.
    fn push_notes(&self, at: usize, out: &mut Vec<PageOutput>)
        ensures
            final(out).deep_view() == old(out).deep_view() + self@.notes_at(
                at as int,
                self@.notes.len() as int,
            ),
    {
        let ghost kept = out.deep_view();
        assert(out.deep_view() =~= kept + self@.notes_at(at as int, 0));
        let mut k: usize = 0;
        while k < self.comments.len()
            invariant
                k <= self.comments.len(),
                out.deep_view() == kept + self@.notes_at(at as int, k as int),
            decreases self.comments.len() - k,
        {
            if self.comments[k].1 == at {
                let ghost before = out.deep_view();
                out.push(PageOutput::Comment(self.comments[k].0.clone()));
                assert(out.deep_view() =~= before.push(
                    PageOutputView::Comment(self@.notes[k as int].text),
                ));
                assert(out.deep_view() =~= kept + self@.notes_at(at as int, k + 1));
            }
            k += 1;
        }
    }

    /// The image as one stream: all 1024 bytes in page order, and each
    /// annotation directly after the byte before the offset at which it
    /// was recorded.
    pub fn get_pages(self) -> (out: Vec<PageOutput>)
        requires
            self@.wf(),
        ensures
            out.deep_view() == self@.output(),
    {
        let mut out: Vec<PageOutput> = Vec::new();
        assert(out.deep_view() =~= self@.stream(0));
        let mut at: usize = 0;
        while at < MEMORY_SIZE
            invariant
                at <= MEMORY_SIZE,
                self@.wf(),
                out.deep_view() == self@.stream(at as int),
            decreases MEMORY_SIZE - at,
        {
            self.push_notes(at, &mut out);
            let ghost before = out.deep_view();
            out.push(PageOutput::Lit(self.pages[at]));
            assert(out.deep_view() =~= before.push(PageOutputView::Lit(self@.bytes[at as int])));
            at += 1;
        }
        self.push_notes(MEMORY_SIZE, &mut out);
        out
    }
}

/// An error among the first bytes written is the error of them all.
pub proof fn lemma_with_bytes_error_stays(w: PageWriterView, values: Seq<u8>, n: int, m: int)
    requires
        0 <= n <= m,
        w.with_bytes(values, n) is Err,
    ensures
        w.with_bytes(values, m) == w.with_bytes(values, n),
    decreases m - n,
{
    if n < m {
        lemma_with_bytes_error_stays(w, values, n, m - 1);
    }
}

/// Bytes can be written where the page has room for them all, and
/// only there; where it has not, the page is reported as full.
pub proof fn lemma_with_bytes_room(w: PageWriterView, values: Seq<u8>, n: int)
    requires
        w.wf(),
        0 <= n <= values.len(),
    ensures
        w.with_bytes(values, n) is Ok <==> w.ptr + n <= 32,
        w.with_bytes(values, n) is Err ==> w.with_bytes(values, n)
            == Err::<PageWriterView, EncodeErrorView>(
            EncodeErrorView::PageOverflow { page: w.page },
        ),
    decreases n,
{
    if n > 0 {
        lemma_with_bytes_room(w, values, n - 1);
        if w.with_bytes(values, n - 1) is Ok {
            lemma_with_bytes(w, values, n - 1);
        }
    }
}

/// The bytes of one instruction.
pub fn encode_instr(instr: &CarbonInstr) -> (res: Result<Vec<u8>, EncodeError>)
    ensures
        match instr_bytes(instr@) {
            Ok(bytes) => res is Ok && res->Ok_0@ == bytes,
            Err(e) => res is Err && res->Err_0@ == e,
        },
{
    let mut bytes: Vec<u8> = Vec::new();
    let mut word: u8 = write_opcode(instr.opcode);
    let mut k: usize = 0;
    while k < instr.operand.len()
        invariant
            k <= instr.operand.len(),
            operands_encoded(instr@.opcode, instr@.operand, k as int) == Ok::<
                Partial,
                EncodeErrorView,
            >(Partial { flushed: bytes@, word }),
        decreases instr.operand.len() - k,
    {
        match &instr.operand[k] {
            CarbonOperand::Cond(c) => {
                word = word | write_cond(*c);
            },
            CarbonOperand::Reg(r) => {
                word = word | *r;
            },
            CarbonOperand::JmpAddr(a) => match a {
                JmpAddr::Literal(_) => {
                    bytes.push(word);
                    word = a.unwrap();
                },
                JmpAddr::Label(name) => {
                    proof {
                        lemma_operands_error_stays(
                            instr@.opcode,
                            instr@.operand,
                            k + 1,
                            instr.operand.len() as int,
                        );
                    }
                    return Err(EncodeError::Unresolved { name: name.clone() });
                },
            },
        }
        k += 1;
    }
    bytes.push(word);
    Ok(bytes)
}

/// An error among the first operands is the error of them all.
pub proof fn lemma_operands_error_stays(
    op: CarbonInstrVariants,
    operands: Seq<CarbonOperandView>,
    n: int,
    m: int,
)
    requires
        0 <= n <= m,
        operands_encoded(op, operands, n) is Err,
    ensures
        operands_encoded(op, operands, m) == operands_encoded(op, operands, n),
    decreases m - n,
{
    if n < m {
        lemma_operands_error_stays(op, operands, n, m - 1);
    }
}

/// Encodes a resolved program into the memory image and returns the
/// image as one stream.
///
/// A page directive sets the cursor to the start of its page. A raw byte
/// is written at the cursor. A comment is recorded at the cursor and
/// comes out directly after the byte before it. An instruction is
/// written as its opcode byte, joined with its register or condition,
/// and one address byte for each jump target. The first byte that finds
/// its page full, the first page directive outside the image and the
/// first label left in the program end the encoding with an error.
pub fn assemble(ast: Vec<CarbonASMProgram>) -> (res: Result<Vec<PageOutput>, EncodeError>)
    ensures
        assemble_result_view(res) == assembled(ast.deep_view()),
{
    let ghost stmts = ast.deep_view();
    let mut pages = PageWriter::new();
    let mut i: usize = 0;
    while i < ast.len()
        invariant
            i <= ast.len(),
            stmts == ast.deep_view(),
            pages@.wf(),
            encoded(stmts, i as int) == Ok::<PageWriterView, EncodeErrorView>(pages@),
        decreases ast.len() - i,
    {
        let step = match &ast[i] {
            CarbonASMProgram::Immediate(value) => pages.write(*value),
            CarbonASMProgram::Instruction(instr) => match encode_instr(instr) {
                Ok(bytes) => pages.write_all(&bytes),
                Err(e) => Err(e),
            },
            CarbonASMProgram::Comment(text) => {
                pages.write_comment(text.clone());
                Ok(())
            },
            CarbonASMProgram::PageLabel(page) => pages.set_page(*page),
            CarbonASMProgram::Label(name) => Err(EncodeError::Unresolved { name: name.clone() }),
            CarbonASMProgram::LabelDeref(name) => Err(
                EncodeError::Unresolved { name: name.clone() },
            ),
        };
        match step {
            Ok(()) => {},
            Err(e) => {
                proof {
                    lemma_encoded_error_stays(stmts, i + 1, ast.len() as int);
                }
                return Err(e);
            },
        }
        i += 1;
    }
    Ok(pages.get_pages())
}

/// An instruction that can be encoded takes one byte, and one more for
/// each jump target among its operands.
pub proof fn lemma_operands_encoded_len(
    op: CarbonInstrVariants,
    operands: Seq<CarbonOperandView>,
    n: int,
)
    requires
        0 <= n <= operands.len(),
        operands_encoded(op, operands, n) is Ok,
    ensures
        operands_encoded(op, operands, n)->Ok_0.flushed.len() == jump_count(operands, n),
    decreases n,
{
    if n > 0 {
        lemma_operands_encoded_len(op, operands, n - 1);
    }
}

/// The bytes of an instruction are as many as its size.
pub proof fn lemma_instr_bytes_len(instr: CarbonInstrView)
    requires
        instr_bytes(instr) is Ok,
    ensures
        instr_bytes(instr)->Ok_0.len() == 1 + jump_count(instr.operand, instr.operand.len() as int),
{
    lemma_operands_encoded_len(instr.opcode, instr.operand, instr.operand.len() as int);
}

/// Writing bytes moves the cursor on by their number within its page,
/// and leaves a well-formed image well formed.
pub proof fn lemma_with_bytes(w: PageWriterView, values: Seq<u8>, n: int)
    requires
        w.wf(),
        0 <= n <= values.len(),
        w.with_bytes(values, n) is Ok,
    ensures
        w.with_bytes(values, n)->Ok_0.wf(),
        w.with_bytes(values, n)->Ok_0.page == w.page,
        w.with_bytes(values, n)->Ok_0.ptr == w.ptr + n,
        w.with_bytes(values, n)->Ok_0.notes == w.notes,
    decreases n,
{
    if n > 0 {
        lemma_with_bytes(w, values, n - 1);
    }
}

/// Every statement leaves a well-formed image well formed: the cursor
/// stays within the 32 pages, no page holds more than 32 bytes, and
/// every annotation stands at an offset of the image.
pub proof fn lemma_step_wf(w: PageWriterView, stmt: CarbonASMProgramView)
    requires
        w.wf(),
        w.step(stmt) is Ok,
    ensures
        w.step(stmt)->Ok_0.wf(),
{
    if let CarbonASMProgramView::Instruction(instr) = stmt {
        let bytes = instr_bytes(instr)->Ok_0;
        lemma_with_bytes(w, bytes, bytes.len() as int);
    }
}

/// The image is well formed after any number of statements.
pub proof fn lemma_encoded_wf(stmts: Seq<CarbonASMProgramView>, n: int)
    requires
        0 <= n <= stmts.len(),
        encoded(stmts, n) is Ok,
    ensures
        encoded(stmts, n)->Ok_0.wf(),
    decreases n,
{
    if n > 0 {
        lemma_encoded_wf(stmts, n - 1);
        lemma_step_wf(encoded(stmts, n - 1)->Ok_0, stmts[n - 1]);
    }
}

/// A raw byte behind a page directive stands at the first address of
/// that page, 32 times the page, wherever the cursor stood before; no
/// other byte of the image changes.
pub proof fn lemma_page_directive_places_byte(w: PageWriterView, page: usize, value: u8)
    requires
        w.wf(),
        page < 32,
    ensures
        w.step(CarbonASMProgramView::PageLabel(page)) is Ok,
        w.step(CarbonASMProgramView::PageLabel(page))->Ok_0.step(
            CarbonASMProgramView::Immediate(value),
        ) is Ok,
        ({
            let after = w.step(CarbonASMProgramView::PageLabel(page))->Ok_0.step(
                CarbonASMProgramView::Immediate(value),
            )->Ok_0;
            &&& after.bytes[page * 32] == value
            &&& after.offset() == page * 32 + 1
            &&& forall|a: int| 0 <= a < 1024 && a != page * 32 ==> after.bytes[a] == w.bytes[a]
        }),
{
}

/// The bytes among the items of a stream, in their order.
pub open spec fn stream_bytes(out: Seq<PageOutputView>, n: int) -> Seq<u8>
    decreases n,
{
    if n <= 0 {
        seq![]
    } else {
        match out[n - 1] {
            PageOutputView::Lit(b) => stream_bytes(out, n - 1).push(b),
            PageOutputView::Comment(_) => stream_bytes(out, n - 1),
        }
    }
}

/// The bytes of two streams one after the other are the bytes of the
/// first and then those of the second.
pub proof fn lemma_stream_bytes_concat(a: Seq<PageOutputView>, b: Seq<PageOutputView>, n: int)
    requires
        0 <= n <= b.len(),
    ensures
        stream_bytes(a + b, a.len() + n) == stream_bytes(a, a.len() as int) + stream_bytes(b, n),
    decreases n,
{
    if n > 0 {
        lemma_stream_bytes_concat(a, b, n - 1);
        assert((a + b)[a.len() + n - 1] == b[n - 1]);
        assert(stream_bytes(a, a.len() as int) + stream_bytes(b, n - 1).push(b[n - 1]->Lit_0)
            =~= (stream_bytes(a, a.len() as int) + stream_bytes(b, n - 1)).push(b[n - 1]->Lit_0));
    } else {
        lemma_stream_bytes_prefix(a + b, a, a.len() as int);
        assert(stream_bytes(a, a.len() as int) + stream_bytes(b, 0) =~= stream_bytes(
            a,
            a.len() as int,
        ));
    }
}

/// The bytes among the first items are decided by those items.
pub proof fn lemma_stream_bytes_prefix(a: Seq<PageOutputView>, b: Seq<PageOutputView>, n: int)
    requires
        0 <= n <= a.len(),
        n <= b.len(),
        forall|k: int| 0 <= k < n ==> a[k] == b[k],
    ensures
        stream_bytes(a, n) == stream_bytes(b, n),
    decreases n,
{
    if n > 0 {
        lemma_stream_bytes_prefix(a, b, n - 1);
    }
}

/// Annotations are no bytes, and there is one item for each annotation
/// at an offset among the annotations so far.
pub proof fn lemma_notes_at(w: PageWriterView, at: int, n: int)
    requires
        0 <= n <= w.notes.len(),
    ensures
        stream_bytes(w.notes_at(at, n), w.notes_at(at, n).len() as int) == Seq::<u8>::empty(),
        w.notes_at(at, n).len() <= n,
    decreases n,
{
    if n > 0 {
        lemma_notes_at(w, at, n - 1);
        if w.notes[n - 1].offset == at {
            let before = w.notes_at(at, n - 1);
            lemma_stream_bytes_prefix(w.notes_at(at, n), before, before.len() as int);
        }
    }
}

/// The bytes of the stream up to an offset are the bytes of the image
/// below that offset.
pub proof fn lemma_stream_bytes(w: PageWriterView, end: int)
    requires
        0 <= end <= w.bytes.len(),
    ensures
        stream_bytes(w.stream(end), w.stream(end).len() as int) == w.bytes.take(end),
    decreases end,
{
    if end > 0 {
        lemma_stream_bytes(w, end - 1);
        let notes = w.notes_at(end - 1, w.notes.len() as int);
        lemma_notes_at(w, end - 1, w.notes.len() as int);
        let head = w.stream(end - 1) + notes;
        lemma_stream_bytes_concat(w.stream(end - 1), notes, notes.len() as int);
        lemma_stream_bytes_prefix(w.stream(end), head, head.len() as int);
        assert(w.bytes.take(end - 1) + Seq::<u8>::empty() =~= w.bytes.take(end - 1));
        assert(w.bytes.take(end - 1).push(w.bytes[end - 1]) =~= w.bytes.take(end));
    } else {
        assert(w.bytes.take(0) =~= Seq::<u8>::empty());
    }
}

/// The bytes of the whole stream are the 1024 bytes of the image, in
/// page order: the annotations move no byte from its place.
pub proof fn lemma_output_bytes(w: PageWriterView)
    requires
        w.wf(),
    ensures
        stream_bytes(w.output(), w.output().len() as int) == w.bytes,
{
    let tail = w.notes_at(1024, w.notes.len() as int);
    lemma_stream_bytes(w, 1024);
    lemma_notes_at(w, 1024, w.notes.len() as int);
    lemma_stream_bytes_concat(w.stream(1024), tail, tail.len() as int);
    assert(w.bytes.take(1024) =~= w.bytes);
    assert(w.bytes + Seq::<u8>::empty() =~= w.bytes);
}

/// The mnemonic whose bit pattern the high five bits of `byte` are.
pub open spec fn opcode_of(byte: u8) -> Option<CarbonInstrVariants> {
    let high = byte / 8;
    if high == 31 {
        Some(CarbonInstrVariants::Hlt)
    } else if high == 1 {
        Some(CarbonInstrVariants::Add)
    } else if high == 2 {
        Some(CarbonInstrVariants::Sub)
    } else if high == 3 {
        Some(CarbonInstrVariants::Bsb)
    } else if high == 4 {
        Some(CarbonInstrVariants::Or)
    } else if high == 5 {
        Some(CarbonInstrVariants::Nor)
    } else if high == 6 {
        Some(CarbonInstrVariants::And)
    } else if high == 7 {
        Some(CarbonInstrVariants::Nand)
    } else if high == 8 {
        Some(CarbonInstrVariants::Xor)
    } else if high == 9 {
        Some(CarbonInstrVariants::Xnr)
    } else if high == 10 {
        Some(CarbonInstrVariants::Ldi)
    } else if high == 11 {
        Some(CarbonInstrVariants::Adr)
    } else if high == 12 {
        Some(CarbonInstrVariants::Rld)
    } else if high == 13 {
        Some(CarbonInstrVariants::Rst)
    } else if high == 14 {
        Some(CarbonInstrVariants::Mst)
    } else if high == 15 {
        Some(CarbonInstrVariants::Mld)
    } else if high == 16 {
        Some(CarbonInstrVariants::Ics)
    } else if high == 17 {
        Some(CarbonInstrVariants::Jid)
    } else if high == 18 {
        Some(CarbonInstrVariants::Brc)
    } else if high == 19 {
        Some(CarbonInstrVariants::Dec)
    } else if high == 20 {
        Some(CarbonInstrVariants::Cmp)
    } else if high == 21 {
        Some(CarbonInstrVariants::Bsr)
    } else if high == 22 {
        Some(CarbonInstrVariants::Bsl)
    } else if high == 23 {
        Some(CarbonInstrVariants::Pst)
    } else if high == 24 {
        Some(CarbonInstrVariants::Pld)
    } else if high == 25 {
        Some(CarbonInstrVariants::Inc)
    } else {
        None
    }
}

/// The condition whose code the low three bits of `byte` are.
pub open spec fn condition_of(byte: u8) -> Option<CarbonConds> {
    let low = byte % 8;
    if low == 1 {
        Some(CarbonConds::ZR)
    } else if low == 2 {
        Some(CarbonConds::NZR)
    } else if low == 3 {
        Some(CarbonConds::MSB)
    } else if low == 4 {
        Some(CarbonConds::NMSB)
    } else if low == 5 {
        Some(CarbonConds::COUT)
    } else if low == 6 {
        Some(CarbonConds::NCOUT)
    } else if low == 7 {
        Some(CarbonConds::UCD)
    } else {
        None
    }
}

/// The instruction that bytes of the image are read as: the mnemonic
/// from the high five bits of the first byte, a register or a condition
/// from its low three bits, and a jump address from the high five bits
/// of the second byte.
pub open spec fn decoded(bytes: Seq<u8>) -> Option<CarbonInstrView> {
    if bytes.len() == 0 {
        None
    } else {
        match opcode_of(bytes[0]) {
            None => None,
            Some(opcode) => match operand_shape(opcode) {
                OperandShape::Bare => if bytes.len() == 1 {
                    Some(CarbonInstrView { opcode, operand: seq![] })
                } else {
                    None
                },
                OperandShape::Register => if bytes.len() == 1 {
                    Some(
                        CarbonInstrView {
                            opcode,
                            operand: seq![CarbonOperandView::Reg(bytes[0] % 8)],
                        },
                    )
                } else {
                    None
                },
                OperandShape::Branch => match condition_of(bytes[0]) {
                    Some(cond) => if bytes.len() == 2 {
                        Some(
                            CarbonInstrView {
                                opcode,
                                operand: seq![
                                    CarbonOperandView::Cond(cond),
                                    CarbonOperandView::JmpAddr(JmpAddrView::Literal(bytes[1] / 8)),
                                ],
                            },
                        )
                    } else {
                        None
                    },
                    None => None,
                },
            },
        }
    }
}

/// Joining three low bits into a byte whose low three bits are zero
/// adds them to it.
pub proof fn lemma_join_low_bits(word: u8, low: u8)
    requires
        word % 8 == 0,
        low < 8,
    ensures
        word | low == word + low,
{
    assert(word % 8 == 0 && low < 8 ==> word | low == word + low) by (bit_vector);
}

/// Nothing is lost in the encoding: the bytes of an instruction that
/// is well shaped, whose register is one of 0 to 7 and whose jump
/// address is one of 0 to 31, are read as that instruction again.
pub proof fn lemma_decode_encode(instr: CarbonInstrView)
    requires
        encodable(instr),
    ensures
        instr_bytes(instr) is Ok,
        decoded(instr_bytes(instr)->Ok_0) == Some(instr),
{
    reveal_with_fuel(operands_encoded, 3);
    let word = opcode_bits(instr.opcode);
    assert(word % 8 == 0);
    match operand_shape(instr.opcode) {
        OperandShape::Bare => {
            assert(instr.operand =~= seq![]);
        },
        OperandShape::Register => {
            let r = instr.operand[0]->Reg_0;
            lemma_join_low_bits(word, r);
            assert(instr.operand =~= seq![CarbonOperandView::Reg(r)]);
        },
        OperandShape::Branch => {
            let c = instr.operand[0]->Cond_0;
            let a = instr.operand[1]->JmpAddr_0->Literal_0;
            lemma_join_low_bits(word, cond_bits(c));
            assert(address_byte(a) / 8 == a);
            assert(instr.operand =~= seq![
                CarbonOperandView::Cond(c),
                CarbonOperandView::JmpAddr(JmpAddrView::Literal(a)),
            ]);
        },
    }
}

} // verus!
