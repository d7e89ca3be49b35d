//! The whole translation: from source text to the encoded stream.

use crate::backend::assembler::{
    assemble, assembled, encoded, instr_bytes, operands_encoded, EncodeError, EncodeErrorView,
    PageOutput, PageOutputView, PageWriterView,
};
use crate::frontend::lexer::{tokenise, tokens_of, LexError, LexErrorView};
use crate::frontend::parser::{parse, parse_tokens, ParseError, ParseErrorView};
use crate::backend::assembler::{lemma_instr_bytes_len, lemma_with_bytes};
use crate::frontend::resolver::{
    label_free, lemma_resolved_label_free, lemma_resolved_operands,
    lemma_symbol_value, pc_at, resolve_operand, resolve_operands, resolved, substituted, symbols,
    transform_labels, ResolveError, ResolveErrorView,
};
use crate::instr::{
    jump_count, CarbonASMProgramView, CarbonInstrVariants, CarbonOperandView, JmpAddrView,
};
use vstd::prelude::*;

verus! {

/// Why a source text cannot be translated: the error of the stage that
/// failed.
#[derive(PartialEq, Eq, Debug, Clone)]
pub enum AsmError {
    Lex(LexError),
    Parse(ParseError),
    Resolve(ResolveError),
    Encode(EncodeError),
}

/// The mathematical value of an [`AsmError`].
pub enum AsmErrorView {
    Lex(LexErrorView),
    Parse(ParseErrorView),
    Resolve(ResolveErrorView),
    Encode(EncodeErrorView),
}

impl View for AsmError {
    type V = AsmErrorView;

    open spec fn view(&self) -> AsmErrorView {
        match self {
            AsmError::Lex(e) => AsmErrorView::Lex(e@),
            AsmError::Parse(e) => AsmErrorView::Parse(e@),
            AsmError::Resolve(e) => AsmErrorView::Resolve(e@),
            AsmError::Encode(e) => AsmErrorView::Encode(e@),
        }
    }
}

/// The stream that a source text is translated to: its tokens are
/// parsed, the labels of the statements resolved, and the resolved
/// statements encoded. The first stage that fails gives the error, and
/// no stream.
pub open spec fn translated(source: Seq<char>) -> Result<Seq<PageOutputView>, AsmErrorView> {
    match tokens_of(source) {
        Err(e) => Err(AsmErrorView::Lex(e)),
        Ok(toks) => match parse_tokens(toks) {
            Err(e) => Err(AsmErrorView::Parse(e)),
            Ok(stmts) => match resolved(stmts) {
                Err(e) => Err(AsmErrorView::Resolve(e)),
                Ok(program) => match assembled(program) {
                    Err(e) => Err(AsmErrorView::Encode(e)),
                    Ok(out) => Ok(out),
                },
            },
        },
    }
}

/// The mathematical value of what [`translate`] returns.
pub open spec fn translate_result_view(res: Result<Vec<PageOutput>, AsmError>) -> Result<
    Seq<PageOutputView>,
    AsmErrorView,
> {
    match res {
        Ok(out) => Ok(out.deep_view()),
        Err(e) => Err(e@),
    }
}

/// Translates a source text into the encoded stream.
///
/// Every error ends the translation: nothing is returned but the first
/// error.
pub fn translate(src: &str) -> (res: Result<Vec<PageOutput>, AsmError>)
    ensures
        translate_result_view(res) == translated(src@),
{
    let toks = match tokenise(src) {
        Ok(toks) => toks,
        Err(e) => {
            return Err(AsmError::Lex(e));
        },
    };
    let stmts = match parse(toks) {
        Ok(stmts) => stmts,
        Err(e) => {
            return Err(AsmError::Parse(e));
        },
    };
    let program = match transform_labels(stmts) {
        Ok(program) => program,
        Err(e) => {
            return Err(AsmError::Resolve(e));
        },
    };
    match assemble(program) {
        Ok(out) => Ok(out),
        Err(e) => Err(AsmError::Encode(e)),
    }
}

/// Translation is a function of the source text: two runs on the same
/// text end in the same stream, or in the same error.
pub proof fn lemma_translation_deterministic(
    first: Result<Vec<PageOutput>, AsmError>,
    second: Result<Vec<PageOutput>, AsmError>,
    source: Seq<char>,
)
    requires
        translate_result_view(first) == translated(source),
        translate_result_view(second) == translated(source),
    ensures
        translate_result_view(first) == translate_result_view(second),
{
}

/// Operands without a label among them can be encoded.
pub proof fn lemma_label_free_operands_encode(
    op: CarbonInstrVariants,
    operands: Seq<CarbonOperandView>,
    n: int,
)
    requires
        0 <= n <= operands.len(),
        forall|k: int|
            0 <= k < operands.len() ==> !(#[trigger] operands[k]
                matches CarbonOperandView::JmpAddr(JmpAddrView::Label(_))),
    ensures
        operands_encoded(op, operands, n) is Ok,
    decreases n,
{
    if n > 0 {
        lemma_label_free_operands_encode(op, operands, n - 1);
        assert(!(operands[n - 1] matches CarbonOperandView::JmpAddr(JmpAddrView::Label(_))));
    }
}

/// The encoding of a program without labels never fails for a label.
pub proof fn lemma_label_free_encodes(stmts: Seq<CarbonASMProgramView>, n: int)
    requires
        0 <= n <= stmts.len(),
        forall|k: int| 0 <= k < stmts.len() ==> label_free(#[trigger] stmts[k]),
    ensures
        !(encoded(stmts, n) matches Err(EncodeErrorView::Unresolved { .. })),
    decreases n,
{
    if n > 0 {
        lemma_label_free_encodes(stmts, n - 1);
        assert(label_free(stmts[n - 1]));
        if let CarbonASMProgramView::Instruction(instr) = stmts[n - 1] {
            lemma_label_free_operands_encode(
                instr.opcode,
                instr.operand,
                instr.operand.len() as int,
            );
            if let Ok(w) = encoded(stmts, n - 1) {
                let bytes = instr_bytes(instr)->Ok_0;
                lemma_write_fails_for_overflow(w, bytes, bytes.len() as int);
            }
        }
    }
}

/// Writing bytes fails only where a page is full.
pub proof fn lemma_write_fails_for_overflow(w: PageWriterView, values: Seq<u8>, n: int)
    requires
        0 <= n <= values.len(),
    ensures
        w.with_bytes(values, n) is Err ==> w.with_bytes(values, n)->Err_0 is PageOverflow,
    decreases n,
{
    if n > 0 {
        lemma_write_fails_for_overflow(w, values, n - 1);
    }
}

/// What the resolver returns, the encoder takes: a translation never
/// fails for a label that was left in the program.
pub proof fn lemma_translation_leaves_no_label(source: Seq<char>)
    ensures
        !(translated(source) matches Err(AsmErrorView::Encode(EncodeErrorView::Unresolved { .. }))),
{
    if let Ok(toks) = tokens_of(source) {
        if let Ok(stmts) = parse_tokens(toks) {
            if let Ok(program) = resolved(stmts) {
                lemma_resolved_label_free(stmts);
                lemma_label_free_encodes(program, program.len() as int);
            }
        }
    }
}

/// The image after the first statements is decided by those
/// statements.
pub proof fn lemma_encoded_prefix(
    a: Seq<CarbonASMProgramView>,
    b: Seq<CarbonASMProgramView>,
    n: int,
)
    requires
        0 <= n <= a.len(),
        n <= b.len(),
        forall|k: int| 0 <= k < n ==> a[k] == b[k],
    ensures
        encoded(a, n) == encoded(b, n),
    decreases n,
{
    if n > 0 {
        lemma_encoded_prefix(a, b, n - 1);
    }
}

/// Resolving operands changes no jump target into anything else, nor
/// anything else into a jump target.
pub proof fn lemma_resolved_jump_count(
    table: Map<Seq<char>, u8>,
    operands: Seq<CarbonOperandView>,
    n: int,
    m: int,
)
    requires
        0 <= m <= n <= operands.len(),
        resolve_operands(table, operands, n) is Ok,
    ensures
        jump_count(resolve_operands(table, operands, n)->Ok_0, m) == jump_count(operands, m),
    decreases m,
{
    lemma_resolved_operands(table, operands, n);
    if m > 0 {
        lemma_resolved_jump_count(table, operands, n, m - 1);
        assert(resolve_operand(table, operands[m - 1]) == Ok::<
            CarbonOperandView,
            ResolveErrorView,
        >(resolve_operands(table, operands, n)->Ok_0[m - 1]));
    }
}

/// The program counter of the resolver is the cursor of the encoder:
/// where the first `i` statements of a program resolve and what they
/// resolve to can be laid out in the image, the cursor then stands at
/// the absolute offset that the resolver counted.
pub proof fn lemma_pc_is_cursor(stmts: Seq<CarbonASMProgramView>, table: Map<Seq<char>, u8>, i: int)
    requires
        0 <= i <= stmts.len(),
        substituted(table, stmts, i) is Ok,
        encoded(substituted(table, stmts, i)->Ok_0, substituted(table, stmts, i)->Ok_0.len() as int)
            is Ok,
    ensures
        encoded(
            substituted(table, stmts, i)->Ok_0,
            substituted(table, stmts, i)->Ok_0.len() as int,
        )->Ok_0.offset() == pc_at(stmts, i),
        encoded(
            substituted(table, stmts, i)->Ok_0,
            substituted(table, stmts, i)->Ok_0.len() as int,
        )->Ok_0.wf(),
    decreases i,
{
    let out = substituted(table, stmts, i)->Ok_0;
    if i > 0 {
        let before = substituted(table, stmts, i - 1)->Ok_0;
        let stmt = stmts[i - 1];
        if stmt is Label {
            lemma_pc_is_cursor(stmts, table, i - 1);
        } else {
            assert(out.len() == before.len() + 1);
            lemma_encoded_prefix(out, before, before.len() as int);
            lemma_pc_is_cursor(stmts, table, i - 1);
            let w = encoded(before, before.len() as int)->Ok_0;
            if let CarbonASMProgramView::Instruction(instr) = stmt {
                let done = out[before.len() as int]->Instruction_0;
                lemma_resolved_jump_count(
                    table,
                    instr.operand,
                    instr.operand.len() as int,
                    instr.operand.len() as int,
                );
                lemma_resolved_operands(table, instr.operand, instr.operand.len() as int);
                lemma_instr_bytes_len(done);
                let bytes = instr_bytes(done)->Ok_0;
                lemma_with_bytes(w, bytes, bytes.len() as int);
            }
        }
    }
}

/// A label stands for the address at which the encoder lays out what
/// follows its definition: the value that every reference to the label
/// resolves to is the absolute offset of the cursor where the
/// definition stood, reduced to one byte.
pub proof fn lemma_label_is_cursor(stmts: Seq<CarbonASMProgramView>, label: int, name: Seq<char>)
    requires
        0 <= label < stmts.len(),
        stmts[label] == CarbonASMProgramView::Label(name),
        symbols(stmts, stmts.len() as int) is Ok,
        substituted(symbols(stmts, stmts.len() as int)->Ok_0, stmts, label) is Ok,
        encoded(
            substituted(symbols(stmts, stmts.len() as int)->Ok_0, stmts, label)->Ok_0,
            substituted(symbols(stmts, stmts.len() as int)->Ok_0, stmts, label)->Ok_0.len() as int,
        ) is Ok,
    ensures
        ({
            let table = symbols(stmts, stmts.len() as int)->Ok_0;
            let before = substituted(table, stmts, label)->Ok_0;
            let cursor = encoded(before, before.len() as int)->Ok_0.offset();
            table.dom().contains(name) && table[name] == (cursor % 256) as u8
        }),
{
    let table = symbols(stmts, stmts.len() as int)->Ok_0;
    lemma_symbol_value(stmts, stmts.len() as int, label, name);
    lemma_pc_is_cursor(stmts, table, label);
}

} // verus!
