//! Syntax analysis: from tokens to statements.

use crate::frontend::lexer::{Token, TokenView};
use crate::instr::{
    operand_shape, shape_of, well_shaped, CarbonASMProgram, CarbonASMProgramView, CarbonInstr,
    CarbonInstrVariants, CarbonInstrView, CarbonOperand, CarbonOperandView, JmpAddr, JmpAddrView,
    OperandShape,
};
use vstd::prelude::*;

verus! {

/// What the parser was looking for where it stopped.
#[derive(PartialEq, Eq, Structural, Debug, Clone, Copy)]
pub enum Expected {
    /// A token that can begin a statement.
    Statement,
    /// A register operand.
    Register,
    /// A condition operand.
    Condition,
    /// A jump target: an immediate or a label reference.
    JumpTarget,
}

/// A token of the wrong class. `found` is the token at index `at`, or
/// `None` where the tokens ended.
#[derive(PartialEq, Eq, Debug, Clone)]
pub struct ParseError {
    pub expected: Expected,
    pub found: Option<Token>,
    pub at: usize,
}

/// The mathematical value of a [`ParseError`].
pub struct ParseErrorView {
    pub expected: Expected,
    pub found: Option<TokenView>,
    pub at: int,
}

impl View for ParseError {
    type V = ParseErrorView;

    open spec fn view(&self) -> ParseErrorView {
        ParseErrorView {
            expected: self.expected,
            found: match self.found {
                Some(t) => Some(t@),
                None => None,
            },
            at: self.at as int,
        }
    }
}

/// Comments and label definitions may stand between a mnemonic and its
/// operands.
pub open spec fn is_skip(t: TokenView) -> bool {
    t is Comment || t is Label
}

/// The statement that a token makes by itself, for the tokens that make
/// one: a comment, a label definition, a label reference, an immediate
/// or a page directive.
pub open spec fn lone_statement(t: TokenView) -> CarbonASMProgramView {
    match t {
        TokenView::Immediate(v) => CarbonASMProgramView::Immediate(v),
        TokenView::Comment(text) => CarbonASMProgramView::Comment(text),
        TokenView::Label(name) => CarbonASMProgramView::Label(name),
        TokenView::LabelDeref(name) => CarbonASMProgramView::LabelDeref(name),
        TokenView::PageLabel(page) => CarbonASMProgramView::PageLabel(page),
        _ => arbitrary(),
    }
}

/// How many comments and label definitions follow one another from
/// index `i` on.
pub open spec fn skipped(toks: Seq<TokenView>, i: int) -> nat
    decreases toks.len() - i,
{
    if 0 <= i < toks.len() && is_skip(toks[i]) {
        1 + skipped(toks, i + 1)
    } else {
        0
    }
}

/// How many label definitions follow one another from index `i` on.
pub open spec fn label_run(toks: Seq<TokenView>, i: int) -> nat
    decreases toks.len() - i,
{
    if 0 <= i < toks.len() && toks[i] is Label {
        1 + label_run(toks, i + 1)
    } else {
        0
    }
}

/// The statements of the tokens from index `i` up to `j`, each by
/// itself and in their order.
pub open spec fn hoist(toks: Seq<TokenView>, i: int, j: int) -> Seq<CarbonASMProgramView> {
    Seq::new((j - i) as nat, |k: int| lone_statement(toks[i + k]))
}

/// The operand that a token gives where an operand of class `kind` is
/// expected, if it is of that class.
pub open spec fn operand_of(kind: Expected, t: TokenView) -> Option<CarbonOperandView> {
    match (kind, t) {
        (Expected::Register, TokenView::Register(r)) => Some(CarbonOperandView::Reg(r)),
        (Expected::Condition, TokenView::Cond(c)) => Some(CarbonOperandView::Cond(c)),
        (Expected::JumpTarget, TokenView::Immediate(a)) => Some(
            CarbonOperandView::JmpAddr(JmpAddrView::Literal(a)),
        ),
        (Expected::JumpTarget, TokenView::LabelDeref(name)) => Some(
            CarbonOperandView::JmpAddr(JmpAddrView::Label(name)),
        ),
        _ => None,
    }
}

/// The operand of class `kind` at index `i`, or the error that its
/// absence is.
pub open spec fn operand_here(toks: Seq<TokenView>, i: int, kind: Expected) -> Result<
    CarbonOperandView,
    ParseErrorView,
> {
    if 0 <= i < toks.len() {
        match operand_of(kind, toks[i]) {
            Some(operand) => Ok(operand),
            None => Err(ParseErrorView { expected: kind, found: Some(toks[i]), at: i }),
        }
    } else {
        Err(ParseErrorView { expected: kind, found: None, at: i })
    }
}

/// What parsing one statement gives: the statements made, the
/// instruction last and what was hoisted out before it, and the index
/// of the first token after them.
pub struct Parsed {
    pub stmts: Seq<CarbonASMProgramView>,
    pub next: int,
}

/// The instruction with mnemonic `op` whose operands begin at index
/// `i`. Before each operand, the comments and label definitions that
/// stand there are hoisted out as statements of their own.
pub open spec fn instruction_at(toks: Seq<TokenView>, i: int, op: CarbonInstrVariants) -> Result<
    Parsed,
    ParseErrorView,
> {
    match operand_shape(op) {
        OperandShape::Bare => Ok(
            Parsed {
                stmts: seq![
                    CarbonASMProgramView::Instruction(
                        CarbonInstrView { opcode: op, operand: seq![] },
                    ),
                ],
                next: i,
            },
        ),
        OperandShape::Register => {
            let j = i + skipped(toks, i);
            match operand_here(toks, j, Expected::Register) {
                Err(e) => Err(e),
                Ok(reg) => Ok(
                    Parsed {
                        stmts: hoist(toks, i, j).push(
                            CarbonASMProgramView::Instruction(
                                CarbonInstrView { opcode: op, operand: seq![reg] },
                            ),
                        ),
                        next: j + 1,
                    },
                ),
            }
        },
        OperandShape::Branch => {
            let j = i + skipped(toks, i);
            match operand_here(toks, j, Expected::Condition) {
                Err(e) => Err(e),
                Ok(cond) => {
                    let k = j + 1 + skipped(toks, j + 1);
                    match operand_here(toks, k, Expected::JumpTarget) {
                        Err(e) => Err(e),
                        Ok(target) => Ok(
                            Parsed {
                                stmts: (hoist(toks, i, j) + hoist(toks, j + 1, k)).push(
                                    CarbonASMProgramView::Instruction(
                                        CarbonInstrView { opcode: op, operand: seq![cond, target] },
                                    ),
                                ),
                                next: k + 1,
                            },
                        ),
                    }
                },
            }
        },
    }
}

/// The statement that begins at index `i`.
pub open spec fn statement_at(toks: Seq<TokenView>, i: int) -> Result<Parsed, ParseErrorView> {
    match toks[i] {
        TokenView::Instr(op) => instruction_at(toks, i + 1, op),
        TokenView::Cond(_) | TokenView::Register(_) => Err(
            ParseErrorView { expected: Expected::Statement, found: Some(toks[i]), at: i },
        ),
        _ => Ok(Parsed { stmts: seq![lone_statement(toks[i])], next: i + 1 }),
    }
}

/// `stmts` in front of what `rest` holds, or the error that `rest` is.
pub open spec fn prepend(
    stmts: Seq<CarbonASMProgramView>,
    rest: Result<Seq<CarbonASMProgramView>, ParseErrorView>,
) -> Result<Seq<CarbonASMProgramView>, ParseErrorView> {
    match rest {
        Ok(more) => Ok(stmts + more),
        Err(e) => Err(e),
    }
}

/// The statements of the tokens from index `i` on, or the first error
/// among them.
pub open spec fn parse_from(toks: Seq<TokenView>, i: int) -> Result<
    Seq<CarbonASMProgramView>,
    ParseErrorView,
>
    decreases toks.len() - i,
{
    if 0 <= i < toks.len() {
        match statement_at(toks, i) {
            Err(e) => Err(e),
            Ok(parsed) => if parsed.next > i {
                prepend(parsed.stmts, parse_from(toks, parsed.next))
            } else {
                Ok(parsed.stmts)
            },
        }
    } else {
        Ok(seq![])
    }
}

/// The statements that a token sequence stands for, or the first error
/// in it.
pub open spec fn parse_tokens(toks: Seq<TokenView>) -> Result<
    Seq<CarbonASMProgramView>,
    ParseErrorView,
> {
    parse_from(toks, 0)
}

/// The mathematical value of what [`parse`] returns.
pub open spec fn parse_result_view(res: Result<Vec<CarbonASMProgram>, ParseError>) -> Result<
    Seq<CarbonASMProgramView>,
    ParseErrorView,
> {
    match res {
        Ok(stmts) => Ok(stmts.deep_view()),
        Err(e) => Err(e@),
    }
}

/// Every statement ends after the token it began at.
pub proof fn lemma_statement_advances(toks: Seq<TokenView>, i: int)
    requires
        0 <= i < toks.len(),
        statement_at(toks, i) is Ok,
    ensures
        i < statement_at(toks, i)->Ok_0.next <= toks.len(),
{
    lemma_skipped_bound(toks, i + 1);
    let j = i + 1 + skipped(toks, i + 1);
    lemma_skipped_bound(toks, j + 1);
}

/// The run of comments and label definitions from `i` on ends within
/// the tokens, and at a token that is neither.
pub proof fn lemma_skipped_bound(toks: Seq<TokenView>, i: int)
    requires
        0 <= i,
    ensures
        i <= toks.len() ==> i + skipped(toks, i) <= toks.len(),
        i + skipped(toks, i) < toks.len() ==> !is_skip(toks[i + skipped(toks, i)]),
        forall|k: int| i <= k < i + skipped(toks, i) ==> is_skip(#[trigger] toks[k]),
    decreases toks.len() - i,
{
    if i < toks.len() && is_skip(toks[i]) {
        lemma_skipped_bound(toks, i + 1);
    }
}

/// A run of comments and label definitions from `i` up to `j` that
/// ends at `j` is the whole run.
pub proof fn lemma_skipped_run(toks: Seq<TokenView>, i: int, j: int)
    requires
        0 <= i <= j <= toks.len(),
        forall|k: int| i <= k < j ==> is_skip(#[trigger] toks[k]),
        j < toks.len() ==> !is_skip(toks[j]),
    ensures
        i + skipped(toks, i) == j,
    decreases j - i,
{
    if i < j {
        lemma_skipped_run(toks, i + 1, j);
    }
}

/// A run of label definitions from `i` up to `j` that ends at `j` is
/// the whole run.
pub proof fn lemma_label_run(toks: Seq<TokenView>, i: int, j: int)
    requires
        0 <= i <= j <= toks.len(),
        forall|k: int| i <= k < j ==> #[trigger] toks[k] is Label,
        j < toks.len() ==> !(toks[j] is Label),
    ensures
        i + label_run(toks, i) == j,
    decreases j - i,
{
    if i < j {
        lemma_label_run(toks, i + 1, j);
    }
}

/// A cursor over a token sequence.
pub struct TokenBuffer {
    toks: Vec<Token>,
    pos: usize,
}

impl TokenBuffer {
    /// The tokens that the cursor runs over.
    pub closed spec fn tokens(&self) -> Seq<TokenView> {
        self.toks.deep_view()
    }

    /// The index of the token at the cursor.
    pub closed spec fn position(&self) -> int {
        self.pos as int
    }

    /// A cursor at the first of `toks`.
    pub fn new(toks: Vec<Token>) -> (buf: Self)
        ensures
            buf.tokens() == toks.deep_view(),
            buf.position() == 0,
    {
        Self { toks, pos: 0 }
    }

    /// Whether a token stands at the cursor.
    pub fn has_next(&self) -> (b: bool)
        ensures
            b == (self.position() < self.tokens().len()),
    {
        self.pos < self.toks.len()
    }

    /// The token at the cursor.
    pub fn current(&self) -> (tok: &Token)
        requires
            self.position() < self.tokens().len(),
        ensures
            tok@ == self.tokens()[self.position()],
    {
        &self.toks[self.pos]
    }

    /// Moves the cursor to the next token.
    pub fn advance(&mut self)
        requires
            old(self).position() < old(self).tokens().len(),
        ensures
            final(self).tokens() == old(self).tokens(),
            final(self).position() == old(self).position() + 1,
    {
        assert(self.pos < self.toks.len());
        self.pos += 1;
    }

    /// Moves the cursor over the label definitions that follow one
    /// another from it on, and returns them as statements.
    pub fn get_labels(&mut self) -> (labels: Vec<CarbonASMProgram>)
        requires
            old(self).position() <= old(self).tokens().len(),
        ensures
            final(self).tokens() == old(self).tokens(),
            final(self).position() == old(self).position() + label_run(
                old(self).tokens(),
                old(self).position(),
            ),
            final(self).position() <= final(self).tokens().len(),
            labels.deep_view() == hoist(
                old(self).tokens(),
                old(self).position(),
                final(self).position(),
            ),
    {
        let ghost toks = self.tokens();
        let ghost start = self.position();
        let mut labels: Vec<CarbonASMProgram> = Vec::new();
        assert(labels.deep_view() =~= hoist(toks, start, start));
        while self.pos < self.toks.len()
            invariant
                self.tokens() == toks,
                start <= self.position() <= toks.len(),
                forall|k: int| start <= k < self.position() ==> #[trigger] toks[k] is Label,
                labels.deep_view() == hoist(toks, start, self.position()),
            ensures
                self.position() < toks.len() ==> !(toks[self.position()] is Label),
            decreases toks.len() - self.position(),
        {
            match &self.toks[self.pos] {
                Token::Label(name) => {
                    let ghost before = labels.deep_view();
                    labels.push(CarbonASMProgram::Label(name.clone()));
                    assert(labels.deep_view() =~= before.push(lone_statement(toks[self.pos as int])));
                    assert(before.push(lone_statement(toks[self.pos as int])) =~= hoist(
                        toks,
                        start,
                        self.pos + 1,
                    ));
                },
                _ => {
                    break ;
                },
            }
            self.pos += 1;
        }
        proof {
            lemma_label_run(toks, start, self.position());
        }
        labels
    }

    /// Moves the cursor over the comments and label definitions that
    /// follow one another from it on, and appends them to `ret` as
    /// statements.
    pub fn advance_over_skips(&mut self, ret: &mut Vec<CarbonASMProgram>)
        requires
            old(self).position() <= old(self).tokens().len(),
        ensures
            final(self).tokens() == old(self).tokens(),
            final(self).position() == old(self).position() + skipped(
                old(self).tokens(),
                old(self).position(),
            ),
            final(self).position() <= final(self).tokens().len(),
            final(ret).deep_view() == old(ret).deep_view() + hoist(
                old(self).tokens(),
                old(self).position(),
                final(self).position(),
            ),
    {
        let ghost toks = self.tokens();
        let ghost start = self.position();
        let ghost kept = ret.deep_view();
        assert(ret.deep_view() =~= kept + hoist(toks, start, start));
        loop
            invariant
                self.tokens() == toks,
                start <= self.position() <= toks.len(),
                forall|k: int| start <= k < self.position() ==> is_skip(#[trigger] toks[k]),
                ret.deep_view() == kept + hoist(toks, start, self.position()),
            ensures
                self.position() < toks.len() ==> !is_skip(toks[self.position()]),
            decreases toks.len() - self.position(),
        {
            let ghost round = self.position();
            while self.pos < self.toks.len()
                invariant
                    self.tokens() == toks,
                    start <= round <= self.position() <= toks.len(),
                    forall|k: int| start <= k < self.position() ==> is_skip(#[trigger] toks[k]),
                    ret.deep_view() == kept + hoist(toks, start, self.position()),
                ensures
                    self.position() < toks.len() ==> !(toks[self.position()] is Comment),
                decreases toks.len() - self.position(),
            {
                match &self.toks[self.pos] {
                    Token::Comment(text) => {
                        let ghost before = ret.deep_view();
                        ret.push(CarbonASMProgram::Comment(text.clone()));
                        assert(ret.deep_view() =~= before.push(
                            lone_statement(toks[self.pos as int]),
                        ));
                        assert(before.push(lone_statement(toks[self.pos as int])) =~= kept + hoist(
                            toks,
                            start,
                            self.pos + 1,
                        ));
                    },
                    _ => {
                        break ;
                    },
                }
                self.pos += 1;
            }
            let ghost mid = self.position();
            let ghost before = ret.deep_view();
            let mut labels = self.get_labels();
            if labels.len() == 0 {
                assert(labels.deep_view().len() == 0);
                break ;
            }
            let ghost added = labels.deep_view();
            assert(added.len() == labels@.len());
            ret.append(&mut labels);
            proof {
                assert forall|k: int| mid <= k < self.position() implies is_skip(
                    #[trigger] toks[k],
                ) by {
                    lemma_label_prefix(toks, mid, k);
                }
                assert(ret.deep_view() =~= before + added);
                assert(before + added =~= kept + hoist(toks, start, self.position()));
            }
        }
        proof {
            lemma_skipped_run(toks, start, self.position());
        }
    }
}

/// Every token within the run of label definitions from `i` on is a
/// label definition.
pub proof fn lemma_label_prefix(toks: Seq<TokenView>, i: int, k: int)
    requires
        0 <= i <= k < i + label_run(toks, i),
    ensures
        k < toks.len(),
        toks[k] is Label,
    decreases k - i,
{
    if i < k {
        lemma_label_prefix(toks, i + 1, k);
    }
}

/// The operand of class `expected` that the token at the cursor gives,
/// or the error that the token there, or the end of the tokens, is.
pub fn buf_consume(buf: &TokenBuffer, expected: Expected) -> (res: Result<
    CarbonOperand,
    ParseError,
>)
    requires
        buf.position() <= buf.tokens().len(),
    ensures
        match operand_here(buf.tokens(), buf.position(), expected) {
            Ok(operand) => res is Ok && res->Ok_0@ == operand,
            Err(e) => res is Err && res->Err_0@ == e,
        },
{
    if !buf.has_next() {
        return Err(ParseError { expected, found: None, at: buf.pos });
    }
    let tok = buf.current();
    match (expected, tok) {
        (Expected::Register, Token::Register(r)) => Ok(CarbonOperand::Reg(*r)),
        (Expected::Condition, Token::Cond(c)) => Ok(CarbonOperand::Cond(*c)),
        (Expected::JumpTarget, Token::Immediate(a)) => Ok(
            CarbonOperand::JmpAddr(JmpAddr::Literal(*a)),
        ),
        (Expected::JumpTarget, Token::LabelDeref(name)) => Ok(
            CarbonOperand::JmpAddr(JmpAddr::Label(name.clone())),
        ),
        _ => Err(ParseError { expected, found: Some(tok.duplicate()), at: buf.pos }),
    }
}

/// Putting statements in front in two steps is putting them in front
/// at once.
pub proof fn lemma_prepend_twice(
    a: Seq<CarbonASMProgramView>,
    b: Seq<CarbonASMProgramView>,
    rest: Result<Seq<CarbonASMProgramView>, ParseErrorView>,
)
    ensures
        prepend(a, prepend(b, rest)) == prepend(a + b, rest),
{
    if let Ok(more) = rest {
        assert(a + (b + more) =~= (a + b) + more);
    }
}

/// Builds the statements of a token sequence.
///
/// Each mnemonic takes the operands of its shape from the tokens that
/// follow it. Comments and label definitions that stand before an
/// operand become statements of their own, in their order, before the
/// instruction. Immediates, comments, label definitions, label
/// references and page directives outside an instruction are statements
/// as they are. The first token of the wrong class ends the parse with
/// an error that names the class expected and the token found.
pub fn parse(toks: Vec<Token>) -> (res: Result<Vec<CarbonASMProgram>, ParseError>)
    ensures
        parse_result_view(res) == parse_tokens(toks.deep_view()),
{
    let ghost tv = toks.deep_view();
    let mut ret: Vec<CarbonASMProgram> = Vec::new();
    let mut buf = TokenBuffer::new(toks);
    assert(ret.deep_view() =~= Seq::empty());
    assert(Seq::<CarbonASMProgramView>::empty() + parse_from(tv, 0)->Ok_0 =~= parse_from(tv, 0)->Ok_0);
    while buf.has_next()
        invariant
            tv == toks.deep_view(),
            buf.tokens() == tv,
            0 <= buf.position() <= tv.len(),
            parse_tokens(tv) == prepend(ret.deep_view(), parse_from(tv, buf.position())),
        decreases tv.len() - buf.position(),
    {
        let ghost i = buf.position();
        let ghost done = ret.deep_view();
        proof {
            lemma_skipped_bound(tv, i + 1);
            lemma_skipped_bound(tv, i + 2 + skipped(tv, i + 1));
        }
        match buf.current() {
            Token::Instr(op) => {
                let op = *op;
                buf.advance();
                let mut operands: Vec<CarbonOperand> = Vec::new();
                match shape_of(op) {
                    OperandShape::Bare => {},
                    OperandShape::Register => {
                        buf.advance_over_skips(&mut ret);
                        match buf_consume(&buf, Expected::Register) {
                            Ok(reg) => operands.push(reg),
                            Err(e) => {
                                return Err(e);
                            },
                        }
                        buf.advance();
                    },
                    OperandShape::Branch => {
                        buf.advance_over_skips(&mut ret);
                        match buf_consume(&buf, Expected::Condition) {
                            Ok(cond) => operands.push(cond),
                            Err(e) => {
                                return Err(e);
                            },
                        }
                        buf.advance();
                        buf.advance_over_skips(&mut ret);
                        match buf_consume(&buf, Expected::JumpTarget) {
                            Ok(target) => operands.push(target),
                            Err(e) => {
                                return Err(e);
                            },
                        }
                        buf.advance();
                    },
                }
                let ghost hoisted = ret.deep_view();
                let instr = CarbonInstr { opcode: op, operand: operands };
                assert(instr@.operand =~= statement_at(tv, i)->Ok_0.stmts.last()->Instruction_0.operand);
                ret.push(CarbonASMProgram::Instruction(instr));
                assert(ret.deep_view() =~= hoisted.push(statement_at(tv, i)->Ok_0.stmts.last()));
                assert(ret.deep_view() =~= done + statement_at(tv, i)->Ok_0.stmts);
            },
            Token::Immediate(value) => {
                ret.push(CarbonASMProgram::Immediate(*value));
                buf.advance();
                assert(ret.deep_view() =~= done + statement_at(tv, i)->Ok_0.stmts);
            },
            Token::Comment(text) => {
                ret.push(CarbonASMProgram::Comment(text.clone()));
                buf.advance();
                assert(ret.deep_view() =~= done + statement_at(tv, i)->Ok_0.stmts);
            },
            Token::Label(name) => {
                ret.push(CarbonASMProgram::Label(name.clone()));
                buf.advance();
                assert(ret.deep_view() =~= done + statement_at(tv, i)->Ok_0.stmts);
            },
            Token::LabelDeref(name) => {
                ret.push(CarbonASMProgram::LabelDeref(name.clone()));
                buf.advance();
                assert(ret.deep_view() =~= done + statement_at(tv, i)->Ok_0.stmts);
            },
            Token::PageLabel(page) => {
                ret.push(CarbonASMProgram::PageLabel(*page));
                buf.advance();
                assert(ret.deep_view() =~= done + statement_at(tv, i)->Ok_0.stmts);
            },
            _ => {
                return Err(
                    ParseError {
                        expected: Expected::Statement,
                        found: Some(buf.current().duplicate()),
                        at: buf.pos,
                    },
                );
            },
        }
        proof {
            lemma_prepend_twice(
                done,
                statement_at(tv, i)->Ok_0.stmts,
                parse_from(tv, buf.position()),
            );
        }
    }
    assert(ret.deep_view() + Seq::<CarbonASMProgramView>::empty() =~= ret.deep_view());
    Ok(ret)
}

/// Whether a statement, if it is an instruction, has the operands that
/// its mnemonic takes.
pub open spec fn shaped(stmt: CarbonASMProgramView) -> bool {
    stmt matches CarbonASMProgramView::Instruction(instr) ==> well_shaped(instr)
}

/// The statements that one statement of the source makes are no
/// instructions, but for the last, whose operands are what its
/// mnemonic takes.
pub proof fn lemma_statement_shaped(toks: Seq<TokenView>, i: int)
    requires
        0 <= i < toks.len(),
        statement_at(toks, i) is Ok,
    ensures
        forall|k: int|
            0 <= k < statement_at(toks, i)->Ok_0.stmts.len() ==> shaped(
                #[trigger] statement_at(toks, i)->Ok_0.stmts[k],
            ),
{
    let j = i + 1 + skipped(toks, i + 1);
    lemma_skipped_bound(toks, i + 1);
    lemma_skipped_bound(toks, j + 1);
    let stmts = statement_at(toks, i)->Ok_0.stmts;
    assert forall|k: int| 0 <= k < stmts.len() implies shaped(#[trigger] stmts[k]) by {
        if let TokenView::Instr(op) = toks[i] {
            if k < stmts.len() - 1 {
                if k < j - (i + 1) {
                    assert(is_skip(toks[i + 1 + k]));
                } else {
                    assert(is_skip(toks[j + 1 + (k - (j - (i + 1)))]));
                }
            }
        }
    }
}

/// Every instruction that the parser makes has the operands that its
/// mnemonic takes.
pub proof fn lemma_parsed_shaped(toks: Seq<TokenView>, i: int)
    requires
        0 <= i,
        parse_from(toks, i) is Ok,
    ensures
        forall|k: int|
            0 <= k < parse_from(toks, i)->Ok_0.len() ==> shaped(
                #[trigger] parse_from(toks, i)->Ok_0[k],
            ),
    decreases toks.len() - i,
{
    if i < toks.len() {
        lemma_statement_shaped(toks, i);
        lemma_statement_advances(toks, i);
        let parsed = statement_at(toks, i)->Ok_0;
        lemma_parsed_shaped(toks, parsed.next);
    }
}

} // verus!
