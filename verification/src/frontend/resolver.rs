//! Label resolution: addresses are assigned to label definitions in a
//! first pass, and put in place of label references in a second.

use crate::instr::{
    jump_count, size_of, CarbonASMProgram, CarbonASMProgramView, CarbonInstr, CarbonInstrView,
    CarbonOperand, CarbonOperandView, JmpAddr, JmpAddrView,
};
use vstd::prelude::*;

verus! {

/// Why the labels of a program cannot be resolved.
#[derive(PartialEq, Eq, Debug, Clone)]
pub enum ResolveError {
    /// A label is defined a second time.
    Duplicate { name: String },
    /// A label is referred to and defined nowhere.
    Undefined { name: String },
}

/// The mathematical value of a [`ResolveError`].
pub enum ResolveErrorView {
    Duplicate { name: Seq<char> },
    Undefined { name: Seq<char> },
}

impl View for ResolveError {
    type V = ResolveErrorView;

    open spec fn view(&self) -> ResolveErrorView {
        match self {
            ResolveError::Duplicate { name } => ResolveErrorView::Duplicate { name: name@ },
            ResolveError::Undefined { name } => ResolveErrorView::Undefined { name: name@ },
        }
    }
}

/// The program counter before statement `i`. It starts at 0; a page
/// directive sets it to 32 times its page; every other statement moves
/// it on by its size.
pub open spec fn pc_at(stmts: Seq<CarbonASMProgramView>, i: int) -> int
    decreases i,
{
    if i <= 0 {
        0
    } else {
        match stmts[i - 1] {
            CarbonASMProgramView::PageLabel(page) => page * 32,
            stmt => pc_at(stmts, i - 1) + size_of(stmt),
        }
    }
}

/// The number of bytes that the statements from index `i` up to `j`
/// take.
pub open spec fn bytes_between(stmts: Seq<CarbonASMProgramView>, i: int, j: int) -> int
    decreases j - i,
{
    if j <= i {
        0
    } else {
        bytes_between(stmts, i, j - 1) + size_of(stmts[j - 1])
    }
}

/// The value that stands for the address of statement `i` wherever it
/// is referred to: the program counter there, reduced to the one byte
/// that a literal holds.
pub open spec fn label_value(stmts: Seq<CarbonASMProgramView>, i: int) -> u8 {
    (pc_at(stmts, i) % 256) as u8
}

/// The labels that the first `n` statements define, each with its
/// value, or the name of the first label that is defined twice.
pub open spec fn symbols(stmts: Seq<CarbonASMProgramView>, n: int) -> Result<
    Map<Seq<char>, u8>,
    ResolveErrorView,
>
    decreases n,
{
    if n <= 0 {
        Ok(Map::empty())
    } else {
        match symbols(stmts, n - 1) {
            Err(e) => Err(e),
            Ok(table) => match stmts[n - 1] {
                CarbonASMProgramView::Label(name) => if table.dom().contains(name) {
                    Err(ResolveErrorView::Duplicate { name })
                } else {
                    Ok(table.insert(name, label_value(stmts, n - 1)))
                },
                _ => Ok(table),
            },
        }
    }
}

/// An operand with the value of its label in the label's place.
pub open spec fn resolve_operand(table: Map<Seq<char>, u8>, operand: CarbonOperandView) -> Result<
    CarbonOperandView,
    ResolveErrorView,
> {
    match operand {
        CarbonOperandView::JmpAddr(JmpAddrView::Label(name)) => if table.dom().contains(name) {
            Ok(CarbonOperandView::JmpAddr(JmpAddrView::Literal(table[name])))
        } else {
            Err(ResolveErrorView::Undefined { name })
        },
        _ => Ok(operand),
    }
}

/// The first `n` operands, resolved, or the first undefined label among
/// them.
pub open spec fn resolve_operands(
    table: Map<Seq<char>, u8>,
    operands: Seq<CarbonOperandView>,
    n: int,
) -> Result<Seq<CarbonOperandView>, ResolveErrorView>
    decreases n,
{
    if n <= 0 {
        Ok(seq![])
    } else {
        match resolve_operands(table, operands, n - 1) {
            Err(e) => Err(e),
            Ok(done) => match resolve_operand(table, operands[n - 1]) {
                Err(e) => Err(e),
                Ok(operand) => Ok(done.push(operand)),
            },
        }
    }
}

/// What becomes of one statement: a label definition goes, a label
/// reference becomes the raw byte of the label's value, an instruction
/// has its operands resolved, every other statement stays.
pub open spec fn resolve_stmt(table: Map<Seq<char>, u8>, stmt: CarbonASMProgramView) -> Result<
    Option<CarbonASMProgramView>,
    ResolveErrorView,
> {
    match stmt {
        CarbonASMProgramView::Label(_) => Ok(None),
        CarbonASMProgramView::LabelDeref(name) => if table.dom().contains(name) {
            Ok(Some(CarbonASMProgramView::Immediate(table[name])))
        } else {
            Err(ResolveErrorView::Undefined { name })
        },
        CarbonASMProgramView::Instruction(instr) => match resolve_operands(
            table,
            instr.operand,
            instr.operand.len() as int,
        ) {
            Err(e) => Err(e),
            Ok(operand) => Ok(
                Some(
                    CarbonASMProgramView::Instruction(
                        CarbonInstrView { opcode: instr.opcode, operand },
                    ),
                ),
            ),
        },
        _ => Ok(Some(stmt)),
    }
}

/// What becomes of the first `n` statements, or the first undefined
/// label among them.
pub open spec fn substituted(
    table: Map<Seq<char>, u8>,
    stmts: Seq<CarbonASMProgramView>,
    n: int,
) -> Result<Seq<CarbonASMProgramView>, ResolveErrorView>
    decreases n,
{
    if n <= 0 {
        Ok(seq![])
    } else {
        match substituted(table, stmts, n - 1) {
            Err(e) => Err(e),
            Ok(done) => match resolve_stmt(table, stmts[n - 1]) {
                Err(e) => Err(e),
                Ok(None) => Ok(done),
                Ok(Some(stmt)) => Ok(done.push(stmt)),
            },
        }
    }
}

/// The resolved program: the labels of the whole program are collected
/// first, so that a reference may stand before the definition it refers
/// to.
pub open spec fn resolved(stmts: Seq<CarbonASMProgramView>) -> Result<
    Seq<CarbonASMProgramView>,
    ResolveErrorView,
> {
    match symbols(stmts, stmts.len() as int) {
        Err(e) => Err(e),
        Ok(table) => substituted(table, stmts, stmts.len() as int),
    }
}

/// The mathematical value of what the second pass returns.
pub open spec fn resolve_result_view(res: Result<Vec<CarbonASMProgram>, ResolveError>) -> Result<
    Seq<CarbonASMProgramView>,
    ResolveErrorView,
> {
    match res {
        Ok(stmts) => Ok(stmts.deep_view()),
        Err(e) => Err(e@),
    }
}

/// The labels of a program with their values.
pub struct SymbolTable {
    entries: Vec<(String, u8)>,
}

/// The map that the first `n` of the entries make, a later entry
/// standing for an earlier one of the same name.
pub open spec fn entries_map(entries: Seq<(Seq<char>, u8)>, n: int) -> Map<Seq<char>, u8>
    decreases n,
{
    if n <= 0 {
        Map::empty()
    } else {
        entries_map(entries, n - 1).insert(entries[n - 1].0, entries[n - 1].1)
    }
}

/// What a name stands for is decided by its last entry.
pub proof fn lemma_entries_map_lookup(entries: Seq<(Seq<char>, u8)>, n: int, name: Seq<char>)
    requires
        0 <= n <= entries.len(),
    ensures
        entries_map(entries, n).dom().contains(name) <==> exists|k: int|
            0 <= k < n && (#[trigger] entries[k]).0 == name,
        forall|k: int|
            0 <= k < n && (#[trigger] entries[k]).0 == name && (forall|j: int|
                k < j < n ==> (#[trigger] entries[j]).0 != name) ==> entries_map(entries, n)[name]
                == entries[k].1,
    decreases n,
{
    if n > 0 {
        lemma_entries_map_lookup(entries, n - 1, name);
        if entries[n - 1].0 == name {
        } else {
            assert forall|k: int|
                0 <= k < n && (#[trigger] entries[k]).0 == name && (forall|j: int|
                    k < j < n ==> (#[trigger] entries[j]).0 != name) implies entries_map(
                entries,
                n,
            )[name] == entries[k].1 by {
                assert(k < n - 1);
            }
        }
    }
}

impl SymbolTable {
    /// The entries as mathematical values.
    pub closed spec fn entries(&self) -> Seq<(Seq<char>, u8)> {
        Seq::new(self.entries@.len(), |k: int| (self.entries@[k].0@, self.entries@[k].1))
    }

    /// The empty table.
    pub fn new() -> (table: SymbolTable)
        ensures
            table@ == Map::<Seq<char>, u8>::empty(),
    {
        SymbolTable { entries: Vec::new() }
    }

    /// The value of `name`, if the table holds it.
    pub fn get(&self, name: &String) -> (value: Option<u8>)
        ensures
            value == (if self@.dom().contains(name@) {
                Some(self@[name@])
            } else {
                None
            }),
    {
        let mut k: usize = self.entries.len();
        while k > 0
            invariant
                k <= self.entries.len(),
                forall|j: int| k <= j < self.entries.len() ==> (#[trigger] self.entries()[j]).0 != name@,
            decreases k,
        {
            k -= 1;
            if self.entries[k].0 == *name {
                proof {
                    lemma_entries_map_lookup(self.entries(), self.entries.len() as int, name@);
                    assert(self.entries()[k as int].0 == name@);
                }
                return Some(self.entries[k].1);
            }
        }
        proof {
            lemma_entries_map_lookup(self.entries(), self.entries.len() as int, name@);
        }
        None
    }

    /// Binds `name` to `value`.
    pub fn insert(&mut self, name: String, value: u8)
        ensures
            final(self)@ == old(self)@.insert(name@, value),
    {
        let ghost before = self.entries();
        self.entries.push((name, value));
        proof {
            assert(self.entries().drop_last() =~= before);
            lemma_entries_map_prefix(self.entries(), before, before.len() as int);
        }
    }
}

/// The map of the first entries is decided by those entries.
pub proof fn lemma_entries_map_prefix(a: Seq<(Seq<char>, u8)>, b: Seq<(Seq<char>, u8)>, n: int)
    requires
        0 <= n <= a.len(),
        n <= b.len(),
        forall|k: int| 0 <= k < n ==> a[k] == b[k],
    ensures
        entries_map(a, n) == entries_map(b, n),
    decreases n,
{
    if n > 0 {
        lemma_entries_map_prefix(a, b, n - 1);
    }
}

impl View for SymbolTable {
    type V = Map<Seq<char>, u8>;

    closed spec fn view(&self) -> Map<Seq<char>, u8> {
        entries_map(self.entries(), self.entries().len() as int)
    }
}

/// An error among the first statements is the error of them all.
pub proof fn lemma_symbols_error_stays(stmts: Seq<CarbonASMProgramView>, n: int, m: int)
    requires
        0 <= n <= m,
        symbols(stmts, n) is Err,
    ensures
        symbols(stmts, m) == symbols(stmts, n),
    decreases m - n,
{
    if n < m {
        lemma_symbols_error_stays(stmts, n, m - 1);
    }
}

/// An error among the first operands is the error of them all.
pub proof fn lemma_resolve_operands_error_stays(
    table: Map<Seq<char>, u8>,
    operands: Seq<CarbonOperandView>,
    n: int,
    m: int,
)
    requires
        0 <= n <= m,
        resolve_operands(table, operands, n) is Err,
    ensures
        resolve_operands(table, operands, m) == resolve_operands(table, operands, n),
    decreases m - n,
{
    if n < m {
        lemma_resolve_operands_error_stays(table, operands, n, m - 1);
    }
}

/// An error among the first statements is the error of them all.
pub proof fn lemma_substituted_error_stays(
    table: Map<Seq<char>, u8>,
    stmts: Seq<CarbonASMProgramView>,
    n: int,
    m: int,
)
    requires
        0 <= n <= m,
        substituted(table, stmts, n) is Err,
    ensures
        substituted(table, stmts, m) == substituted(table, stmts, n),
    decreases m - n,
{
    if n < m {
        lemma_substituted_error_stays(table, stmts, n, m - 1);
    }
}

/// The value of the address after that of value `pc`.
fn next_pc(pc: u8) -> (next: u8)
    ensures
        next == ((pc + 1) % 256) as u8,
{
    if pc == 255 {
        0
    } else {
        pc + 1
    }
}

/// The value of the address at which page `page` begins.
fn page_base(page: usize) -> (base: u8)
    ensures
        base == ((page * 32) % 256) as u8,
{
    let low: usize = page % 8;
    proof {
        vstd::arithmetic::div_mod::lemma_truncate_middle(page as int, 32, 8);
    }
    (low * 32) as u8
}

/// The first pass: gives each label the value of the address at which
/// it is defined.
///
/// The program counter starts at 0. A raw byte and a label reference
/// move it on by one, an instruction by one and by one more for each
/// jump target among its operands, and a page directive sets it to 32
/// times its page. A label definition binds its name to the counter as
/// it stands, reduced to one byte, and leaves the counter as it is, as
/// a comment does. A name that is defined a second time is an error.
pub fn assign_addresses(ast: &Vec<CarbonASMProgram>) -> (res: Result<SymbolTable, ResolveError>)
    ensures
        match symbols(ast.deep_view(), ast.len() as int) {
            Ok(table) => res is Ok && res->Ok_0@ == table,
            Err(e) => res is Err && res->Err_0@ == e,
        },
{
    let ghost stmts = ast.deep_view();
    let mut table = SymbolTable::new();
    let mut pc: u8 = 0;
    let mut i: usize = 0;
    while i < ast.len()
        invariant
            i <= ast.len(),
            stmts == ast.deep_view(),
            symbols(stmts, i as int) == Ok::<Map<Seq<char>, u8>, ResolveErrorView>(table@),
            pc == label_value(stmts, i as int),
        decreases ast.len() - i,
    {
        match &ast[i] {
            CarbonASMProgram::Immediate(_) => {
                pc = next_pc(pc);
            },
            CarbonASMProgram::LabelDeref(_) => {
                pc = next_pc(pc);
            },
            CarbonASMProgram::Instruction(instr) => {
                let ghost before = pc_at(stmts, i as int);
                pc = next_pc(pc);
                let mut k: usize = 0;
                while k < instr.operand.len()
                    invariant
                        k <= instr.operand.len(),
                        pc == ((before + 1 + jump_count(instr@.operand, k as int)) % 256) as u8,
                    decreases instr.operand.len() - k,
                {
                    match &instr.operand[k] {
                        CarbonOperand::JmpAddr(_) => {
                            pc = next_pc(pc);
                        },
                        _ => {},
                    }
                    k += 1;
                }
            },
            CarbonASMProgram::PageLabel(page) => {
                pc = page_base(*page);
            },
            CarbonASMProgram::Label(name) => {
                if table.get(name).is_some() {
                    proof {
                        lemma_symbols_error_stays(stmts, i + 1, ast.len() as int);
                    }
                    return Err(ResolveError::Duplicate { name: name.clone() });
                }
                table.insert(name.clone(), pc);
            },
            CarbonASMProgram::Comment(_) => {},
        }
        i += 1;
    }
    Ok(table)
}

/// One operand with the value of its label in the label's place.
pub fn substitute_operand(table: &SymbolTable, operand: &CarbonOperand) -> (res: Result<
    CarbonOperand,
    ResolveError,
>)
    ensures
        match resolve_operand(table@, operand@) {
            Ok(o) => res is Ok && res->Ok_0@ == o,
            Err(e) => res is Err && res->Err_0@ == e,
        },
{
    match operand {
        CarbonOperand::JmpAddr(JmpAddr::Label(name)) => match table.get(name) {
            Some(value) => Ok(CarbonOperand::JmpAddr(JmpAddr::Literal(value))),
            None => Err(ResolveError::Undefined { name: name.clone() }),
        },
        _ => Ok(operand.duplicate()),
    }
}

/// One statement with the values of its labels in the labels' place;
/// `None` for a label definition, which leaves the program.
pub fn substitute_statement(table: &SymbolTable, stmt: &CarbonASMProgram) -> (res: Result<
    Option<CarbonASMProgram>,
    ResolveError,
>)
    ensures
        match resolve_stmt(table@, stmt@) {
            Ok(Some(s)) => res is Ok && res->Ok_0 is Some && res->Ok_0->Some_0@ == s,
            Ok(None) => res is Ok && res->Ok_0 is None,
            Err(e) => res is Err && res->Err_0@ == e,
        },
{
    match stmt {
        CarbonASMProgram::Label(_) => Ok(None),
        CarbonASMProgram::LabelDeref(name) => match table.get(name) {
            Some(value) => Ok(Some(CarbonASMProgram::Immediate(value))),
            None => Err(ResolveError::Undefined { name: name.clone() }),
        },
        CarbonASMProgram::Instruction(instr) => {
            let mut operand: Vec<CarbonOperand> = Vec::new();
            assert(operand.deep_view() =~= Seq::empty());
            let mut k: usize = 0;
            while k < instr.operand.len()
                invariant
                    k <= instr.operand.len(),
                    stmt@ == CarbonASMProgramView::Instruction(instr@),
                    resolve_operands(table@, instr@.operand, k as int) == Ok::<
                        Seq<CarbonOperandView>,
                        ResolveErrorView,
                    >(operand.deep_view()),
                decreases instr.operand.len() - k,
            {
                match substitute_operand(table, &instr.operand[k]) {
                    Ok(o) => {
                        let ghost before = operand.deep_view();
                        operand.push(o);
                        assert(operand.deep_view() =~= before.push(o@));
                    },
                    Err(e) => {
                        proof {
                            lemma_resolve_operands_error_stays(
                                table@,
                                instr@.operand,
                                k + 1,
                                instr.operand.len() as int,
                            );
                        }
                        return Err(e);
                    },
                }
                k += 1;
            }
            Ok(Some(CarbonASMProgram::Instruction(CarbonInstr { opcode: instr.opcode, operand })))
        },
        _ => Ok(Some(stmt.duplicate())),
    }
}

/// The second pass: puts the value of each label in the place of every
/// reference to it.
///
/// A label as a jump target becomes a literal, a label reference that
/// stands alone becomes a raw byte, a label definition leaves the
/// program, and every other statement stays as it is. The first
/// reference to a name that `table` does not hold is an error.
pub fn substitute_labels(ast: &Vec<CarbonASMProgram>, table: &SymbolTable) -> (res: Result<
    Vec<CarbonASMProgram>,
    ResolveError,
>)
    ensures
        resolve_result_view(res) == substituted(table@, ast.deep_view(), ast.len() as int),
{
    let ghost stmts = ast.deep_view();
    let mut ret: Vec<CarbonASMProgram> = Vec::new();
    assert(ret.deep_view() =~= Seq::empty());
    let mut i: usize = 0;
    while i < ast.len()
        invariant
            i <= ast.len(),
            stmts == ast.deep_view(),
            substituted(table@, stmts, i as int) == Ok::<
                Seq<CarbonASMProgramView>,
                ResolveErrorView,
            >(ret.deep_view()),
        decreases ast.len() - i,
    {
        match substitute_statement(table, &ast[i]) {
            Ok(Some(stmt)) => {
                let ghost before = ret.deep_view();
                ret.push(stmt);
                assert(ret.deep_view() =~= before.push(stmt@));
            },
            Ok(None) => {},
            Err(e) => {
                proof {
                    lemma_substituted_error_stays(table@, stmts, i + 1, ast.len() as int);
                }
                return Err(e);
            },
        }
        i += 1;
    }
    Ok(ret)
}

/// Resolves the labels of a program: the first pass over the whole
/// program, then the second.
///
/// A label may be referred to before it is defined. The result holds no
/// label definition, no label reference and no label as a jump target.
/// A label that is defined twice is an error, and so is a reference to
/// a label that is defined nowhere; a label defined twice is found
/// first.
pub fn transform_labels(ast: Vec<CarbonASMProgram>) -> (res: Result<
    Vec<CarbonASMProgram>,
    ResolveError,
>)
    ensures
        resolve_result_view(res) == resolved(ast.deep_view()),
{
    match assign_addresses(&ast) {
        Ok(table) => substitute_labels(&ast, &table),
        Err(e) => Err(e),
    }
}

/// After the last page directive, the program counter is the
/// directive's base and the bytes of the statements since.
pub proof fn lemma_pc_since_page(stmts: Seq<CarbonASMProgramView>, d: int, i: int)
    requires
        0 <= d < i <= stmts.len(),
        stmts[d] is PageLabel,
        forall|k: int| d < k < i ==> !(#[trigger] stmts[k] is PageLabel),
    ensures
        pc_at(stmts, i) == stmts[d]->PageLabel_0 * 32 + bytes_between(stmts, d + 1, i),
    decreases i - d,
{
    if i > d + 1 {
        lemma_pc_since_page(stmts, d, i - 1);
    }
}

/// Where no page directive came before, the program counter is the
/// bytes of the statements so far.
pub proof fn lemma_pc_since_start(stmts: Seq<CarbonASMProgramView>, i: int)
    requires
        0 <= i <= stmts.len(),
        forall|k: int| 0 <= k < i ==> !(#[trigger] stmts[k] is PageLabel),
    ensures
        pc_at(stmts, i) == bytes_between(stmts, 0, i),
    decreases i,
{
    if i > 0 {
        lemma_pc_since_start(stmts, i - 1);
    }
}

/// The table of the first pass holds the labels that are defined, and
/// no others.
pub proof fn lemma_symbols_domain(stmts: Seq<CarbonASMProgramView>, n: int, name: Seq<char>)
    requires
        0 <= n <= stmts.len(),
        symbols(stmts, n) is Ok,
    ensures
        symbols(stmts, n)->Ok_0.dom().contains(name) <==> exists|d: int|
            0 <= d < n && #[trigger] stmts[d] == CarbonASMProgramView::Label(name),
    decreases n,
{
    if n > 0 {
        lemma_symbols_domain(stmts, n - 1, name);
        if symbols(stmts, n)->Ok_0.dom().contains(name) {
            if !symbols(stmts, n - 1)->Ok_0.dom().contains(name) {
                assert(stmts[n - 1] == CarbonASMProgramView::Label(name));
            }
        }
    }
}

/// The table of the first pass gives each label the value of the
/// program counter at its definition.
pub proof fn lemma_symbol_value(stmts: Seq<CarbonASMProgramView>, n: int, d: int, name: Seq<char>)
    requires
        0 <= d < n <= stmts.len(),
        symbols(stmts, n) is Ok,
        stmts[d] == CarbonASMProgramView::Label(name),
    ensures
        symbols(stmts, n)->Ok_0.dom().contains(name),
        symbols(stmts, n)->Ok_0[name] == label_value(stmts, d),
    decreases n,
{
    if d < n - 1 {
        lemma_symbol_value(stmts, n - 1, d, name);
    }
}

/// The first pass fails on the labels that are defined twice, and on
/// no others.
pub proof fn lemma_symbols_fail_on_duplicates(stmts: Seq<CarbonASMProgramView>, n: int)
    requires
        0 <= n <= stmts.len(),
    ensures
        symbols(stmts, n) is Err <==> exists|i: int, j: int|
            0 <= i < j < n && #[trigger] stmts[i] is Label && #[trigger] stmts[j] == stmts[i],
    decreases n,
{
    if n > 0 {
        lemma_symbols_fail_on_duplicates(stmts, n - 1);
        match symbols(stmts, n - 1) {
            Err(_) => {
                let (i, j) = choose|i: int, j: int|
                    0 <= i < j < n - 1 && #[trigger] stmts[i] is Label && #[trigger] stmts[j]
                        == stmts[i];
                assert(0 <= i < j < n && stmts[i] is Label && stmts[j] == stmts[i]);
            },
            Ok(table) => {
                if let CarbonASMProgramView::Label(name) = stmts[n - 1] {
                    lemma_symbols_domain(stmts, n - 1, name);
                    if table.dom().contains(name) {
                        let d = choose|d: int|
                            0 <= d < n - 1 && #[trigger] stmts[d] == CarbonASMProgramView::Label(
                                name,
                            );
                        assert(0 <= d < n - 1 < n && stmts[d] is Label && stmts[n - 1] == stmts[d]);
                    } else {
                        assert forall|i: int, j: int|
                            0 <= i < j < n && #[trigger] stmts[i] is Label && #[trigger] stmts[j]
                                == stmts[i] implies false by {
                            if j == n - 1 {
                                assert(stmts[i] == CarbonASMProgramView::Label(name));
                            }
                        }
                    }
                } else {
                    assert forall|i: int, j: int|
                        0 <= i < j < n && #[trigger] stmts[i] is Label && #[trigger] stmts[j]
                            == stmts[i] implies false by {
                        if j == n - 1 {
                        }
                    }
                }
            },
        }
    }
}

/// The address of a label is the bytes of the statements between the
/// last page directive before its definition and the definition, added
/// to 32 times the directive's page.
pub proof fn lemma_label_address_since_page(
    stmts: Seq<CarbonASMProgramView>,
    page: int,
    label: int,
    name: Seq<char>,
)
    requires
        0 <= page < label < stmts.len(),
        symbols(stmts, stmts.len() as int) is Ok,
        stmts[page] is PageLabel,
        forall|k: int| page < k < label ==> !(#[trigger] stmts[k] is PageLabel),
        stmts[label] == CarbonASMProgramView::Label(name),
    ensures
        symbols(stmts, stmts.len() as int)->Ok_0.dom().contains(name),
        symbols(stmts, stmts.len() as int)->Ok_0[name] == ((stmts[page]->PageLabel_0 * 32
            + bytes_between(stmts, page + 1, label)) % 256) as u8,
{
    lemma_symbol_value(stmts, stmts.len() as int, label, name);
    lemma_pc_since_page(stmts, page, label);
}

/// The address of a label that no page directive stands before is the
/// bytes of the statements before its definition.
pub proof fn lemma_label_address_since_start(
    stmts: Seq<CarbonASMProgramView>,
    label: int,
    name: Seq<char>,
)
    requires
        0 <= label < stmts.len(),
        symbols(stmts, stmts.len() as int) is Ok,
        forall|k: int| 0 <= k < label ==> !(#[trigger] stmts[k] is PageLabel),
        stmts[label] == CarbonASMProgramView::Label(name),
    ensures
        symbols(stmts, stmts.len() as int)->Ok_0.dom().contains(name),
        symbols(stmts, stmts.len() as int)->Ok_0[name] == (bytes_between(stmts, 0, label)
            % 256) as u8,
{
    lemma_symbol_value(stmts, stmts.len() as int, label, name);
    lemma_pc_since_start(stmts, label);
}

/// A reference that stands before the definition of its label and one
/// that stands after it resolve to the same value, in one program or
/// in two, where the program counter at the definition is the same.
pub proof fn lemma_reference_symmetry(
    first: Seq<CarbonASMProgramView>,
    second: Seq<CarbonASMProgramView>,
    name: Seq<char>,
    first_label: int,
    second_label: int,
)
    requires
        symbols(first, first.len() as int) is Ok,
        symbols(second, second.len() as int) is Ok,
        0 <= first_label < first.len(),
        0 <= second_label < second.len(),
        first[first_label] == CarbonASMProgramView::Label(name),
        second[second_label] == CarbonASMProgramView::Label(name),
        pc_at(first, first_label) == pc_at(second, second_label),
    ensures
        ({
            let value = label_value(first, first_label);
            let before = symbols(first, first.len() as int)->Ok_0;
            let after = symbols(second, second.len() as int)->Ok_0;
            &&& resolve_stmt(before, CarbonASMProgramView::LabelDeref(name)) == Ok::<
                Option<CarbonASMProgramView>,
                ResolveErrorView,
            >(Some(CarbonASMProgramView::Immediate(value)))
            &&& resolve_stmt(after, CarbonASMProgramView::LabelDeref(name)) == resolve_stmt(
                before,
                CarbonASMProgramView::LabelDeref(name),
            )
            &&& resolve_operand(before, CarbonOperandView::JmpAddr(JmpAddrView::Label(name)))
                == Ok::<CarbonOperandView, ResolveErrorView>(
                CarbonOperandView::JmpAddr(JmpAddrView::Literal(value)),
            )
            &&& resolve_operand(after, CarbonOperandView::JmpAddr(JmpAddrView::Label(name)))
                == resolve_operand(
                before,
                CarbonOperandView::JmpAddr(JmpAddrView::Label(name)),
            )
        }),
{
    lemma_symbol_value(first, first.len() as int, first_label, name);
    lemma_symbol_value(second, second.len() as int, second_label, name);
}

/// Whether a statement refers to the label `name`: as a label reference
/// that stands alone, or in a jump target.
pub open spec fn refers_to(stmt: CarbonASMProgramView, name: Seq<char>) -> bool {
    match stmt {
        CarbonASMProgramView::LabelDeref(n) => n == name,
        CarbonASMProgramView::Instruction(instr) => exists|k: int|
            0 <= k < instr.operand.len() && #[trigger] instr.operand[k]
                == CarbonOperandView::JmpAddr(JmpAddrView::Label(name)),
        _ => false,
    }
}

/// Whether a statement holds no label: it is no label definition and
/// no label reference, and none of its jump targets is a label.
pub open spec fn label_free(stmt: CarbonASMProgramView) -> bool {
    match stmt {
        CarbonASMProgramView::Label(_) => false,
        CarbonASMProgramView::LabelDeref(_) => false,
        CarbonASMProgramView::Instruction(instr) => forall|k: int|
            0 <= k < instr.operand.len() ==> !(#[trigger] instr.operand[k]
                matches CarbonOperandView::JmpAddr(JmpAddrView::Label(_))),
        _ => true,
    }
}

/// Resolved operands are as many as before, and none of them is a
/// label.
pub proof fn lemma_resolved_operands(
    table: Map<Seq<char>, u8>,
    operands: Seq<CarbonOperandView>,
    n: int,
)
    requires
        0 <= n <= operands.len(),
        resolve_operands(table, operands, n) is Ok,
    ensures
        resolve_operands(table, operands, n)->Ok_0.len() == n,
        forall|k: int|
            0 <= k < n ==> resolve_operand(table, operands[k]) == Ok::<
                CarbonOperandView,
                ResolveErrorView,
            >(#[trigger] resolve_operands(table, operands, n)->Ok_0[k]),
    decreases n,
{
    if n > 0 {
        lemma_resolved_operands(table, operands, n - 1);
    }
}

/// An operand with an undefined label makes the resolution of the
/// operands fail.
pub proof fn lemma_undefined_operand_fails(
    table: Map<Seq<char>, u8>,
    operands: Seq<CarbonOperandView>,
    n: int,
    k: int,
)
    requires
        0 <= k < n <= operands.len(),
        resolve_operand(table, operands[k]) is Err,
    ensures
        resolve_operands(table, operands, n) is Err,
    decreases n,
{
    if k < n - 1 {
        lemma_undefined_operand_fails(table, operands, n - 1, k);
    }
}

/// A statement that cannot be resolved makes the second pass fail.
pub proof fn lemma_unresolvable_statement_fails(
    table: Map<Seq<char>, u8>,
    stmts: Seq<CarbonASMProgramView>,
    n: int,
    i: int,
)
    requires
        0 <= i < n <= stmts.len(),
        resolve_stmt(table, stmts[i]) is Err,
    ensures
        substituted(table, stmts, n) is Err,
    decreases n,
{
    if i < n - 1 {
        lemma_unresolvable_statement_fails(table, stmts, n - 1, i);
    }
}

/// A program that refers to a label that it defines nowhere cannot be
/// resolved.
pub proof fn lemma_undefined_reference_fails(
    stmts: Seq<CarbonASMProgramView>,
    i: int,
    name: Seq<char>,
)
    requires
        0 <= i < stmts.len(),
        refers_to(stmts[i], name),
        forall|d: int|
            0 <= d < stmts.len() ==> #[trigger] stmts[d] != CarbonASMProgramView::Label(name),
    ensures
        resolved(stmts) is Err,
{
    if let Ok(table) = symbols(stmts, stmts.len() as int) {
        lemma_symbols_domain(stmts, stmts.len() as int, name);
        assert(!table.dom().contains(name));
        if let CarbonASMProgramView::Instruction(instr) = stmts[i] {
            let k = choose|k: int|
                0 <= k < instr.operand.len() && #[trigger] instr.operand[k]
                    == CarbonOperandView::JmpAddr(JmpAddrView::Label(name));
            lemma_undefined_operand_fails(table, instr.operand, instr.operand.len() as int, k);
        }
        lemma_unresolvable_statement_fails(table, stmts, stmts.len() as int, i);
    }
}

/// What the second pass leaves holds no label.
pub proof fn lemma_substituted_label_free(
    table: Map<Seq<char>, u8>,
    stmts: Seq<CarbonASMProgramView>,
    n: int,
)
    requires
        0 <= n <= stmts.len(),
        substituted(table, stmts, n) is Ok,
    ensures
        forall|k: int|
            0 <= k < substituted(table, stmts, n)->Ok_0.len() ==> label_free(
                #[trigger] substituted(table, stmts, n)->Ok_0[k],
            ),
    decreases n,
{
    if n > 0 {
        lemma_substituted_label_free(table, stmts, n - 1);
        if let CarbonASMProgramView::Instruction(instr) = stmts[n - 1] {
            lemma_resolved_operands(table, instr.operand, instr.operand.len() as int);
        }
    }
}

/// A resolved program holds no label definition, no label reference
/// and no label as a jump target.
pub proof fn lemma_resolved_label_free(stmts: Seq<CarbonASMProgramView>)
    requires
        resolved(stmts) is Ok,
    ensures
        forall|k: int|
            0 <= k < resolved(stmts)->Ok_0.len() ==> label_free(#[trigger] resolved(stmts)->Ok_0[k]),
{
    lemma_substituted_label_free(
        symbols(stmts, stmts.len() as int)->Ok_0,
        stmts,
        stmts.len() as int,
    );
}

} // verus!
