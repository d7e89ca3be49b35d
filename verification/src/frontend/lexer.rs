//! Lexical analysis: from source text to tokens.

use crate::instr::{CarbonConds, CarbonInstrVariants};
use vstd::prelude::*;
use vstd::slice::slice_subrange;
use vstd::string::*;

verus! {

/// One lexical unit of the source text.
#[derive(PartialEq, Eq, Debug, Clone)]
pub enum Token {
    Cond(CarbonConds),
    Register(u8),
    Immediate(u8),
    Instr(CarbonInstrVariants),
    Comment(String),
    Label(String),
    LabelDeref(String),
    PageLabel(usize),
}

/// The mathematical value of a [`Token`].
pub enum TokenView {
    Cond(CarbonConds),
    Register(u8),
    Immediate(u8),
    Instr(CarbonInstrVariants),
    Comment(Seq<char>),
    Label(Seq<char>),
    LabelDeref(Seq<char>),
    PageLabel(usize),
}

impl View for Token {
    type V = TokenView;

    open spec fn view(&self) -> TokenView {
        match self {
            Token::Cond(c) => TokenView::Cond(*c),
            Token::Register(r) => TokenView::Register(*r),
            Token::Immediate(v) => TokenView::Immediate(*v),
            Token::Instr(op) => TokenView::Instr(*op),
            Token::Comment(text) => TokenView::Comment(text@),
            Token::Label(name) => TokenView::Label(name@),
            Token::LabelDeref(name) => TokenView::LabelDeref(name@),
            Token::PageLabel(page) => TokenView::PageLabel(*page),
        }
    }
}

impl DeepView for Token {
    type V = TokenView;

    open spec fn deep_view(&self) -> TokenView {
        self@
    }
}

impl Token {
    /// A copy of this token.
    pub fn duplicate(&self) -> (copy: Token)
        ensures
            copy@ == self@,
    {
        match self {
            Token::Cond(c) => Token::Cond(*c),
            Token::Register(r) => Token::Register(*r),
            Token::Immediate(v) => Token::Immediate(*v),
            Token::Instr(op) => Token::Instr(*op),
            Token::Comment(text) => Token::Comment(text.clone()),
            Token::Label(name) => Token::Label(name.clone()),
            Token::LabelDeref(name) => Token::LabelDeref(name.clone()),
            Token::PageLabel(page) => Token::PageLabel(*page),
        }
    }
}

/// Why a piece of source text is no token.
#[derive(PartialEq, Eq, Structural, Debug, Clone, Copy)]
pub enum LexErrorKind {
    /// No token begins with this character.
    Unrecognized,
    /// A bare word that is not a mnemonic.
    InvalidInstruction,
    /// A register sigil that is not followed by one of the numbers 0 to
    /// 7.
    InvalidRegister,
    /// A number above 255.
    InvalidImmediate,
    /// A page sigil that is not followed by a number, or by one that is
    /// too large.
    InvalidPage,
}

/// A lexical error: the offending text and the index of its first
/// character in the source.
#[derive(PartialEq, Eq, Debug, Clone)]
pub struct LexError {
    pub kind: LexErrorKind,
    pub text: String,
    pub at: usize,
}

/// The mathematical value of a [`LexError`].
pub struct LexErrorView {
    pub kind: LexErrorKind,
    pub text: Seq<char>,
    pub at: int,
}

impl View for LexError {
    type V = LexErrorView;

    open spec fn view(&self) -> LexErrorView {
        LexErrorView { kind: self.kind, text: self.text@, at: self.at as int }
    }
}

/// [`String::push`] appends the given character to the end of the
/// string.
pub assume_specification[ String::push ](s: &mut String, c: char)
    ensures
        final(s)@ == old(s)@.push(c),
;

/// The classes of characters that the grammar tells apart.
#[derive(PartialEq, Eq, Structural, Debug, Clone, Copy)]
pub enum CharClass {
    /// White space.
    Space,
    /// Anything but white space.
    NonSpace,
    /// A decimal digit.
    Digit,
    /// A letter of the Latin alphabet, a decimal digit or an underscore.
    Word,
    /// Anything but a line feed.
    NotNewline,
}

/// White space: the characters with the Unicode property of that name.
pub open spec fn is_space(c: char) -> bool {
    let u = c as u32;
    ||| 0x09 <= u <= 0x0D
    ||| u == 0x20
    ||| u == 0x85
    ||| u == 0xA0
    ||| u == 0x1680
    ||| 0x2000 <= u <= 0x200A
    ||| u == 0x2028
    ||| u == 0x2029
    ||| u == 0x202F
    ||| u == 0x205F
    ||| u == 0x3000
}

/// A decimal digit.
pub open spec fn is_digit(c: char) -> bool {
    '0' <= c <= '9'
}

/// A character of a word: a letter of the Latin alphabet, a decimal
/// digit or an underscore.
pub open spec fn is_word(c: char) -> bool {
    is_digit(c) || 'a' <= c <= 'z' || 'A' <= c <= 'Z' || c == '_'
}

/// Whether a character is of a class.
pub open spec fn in_class(class: CharClass, c: char) -> bool {
    match class {
        CharClass::Space => is_space(c),
        CharClass::NonSpace => !is_space(c),
        CharClass::Digit => is_digit(c),
        CharClass::Word => is_word(c),
        CharClass::NotNewline => c != '\n',
    }
}

/// Whether a character is of a class.
pub fn class_has(class: CharClass, c: char) -> (b: bool)
    ensures
        b == in_class(class, c),
{
    let u: u32 = c as u32;
    let space = (0x09 <= u && u <= 0x0D) || u == 0x20 || u == 0x85 || u == 0xA0 || u == 0x1680 || (
    0x2000 <= u && u <= 0x200A) || u == 0x2028 || u == 0x2029 || u == 0x202F || u == 0x205F || u
        == 0x3000;
    let digit = '0' <= c && c <= '9';
    match class {
        CharClass::Space => space,
        CharClass::NonSpace => !space,
        CharClass::Digit => digit,
        CharClass::Word => digit || ('a' <= c && c <= 'z') || ('A' <= c && c <= 'Z') || c == '_',
        CharClass::NotNewline => c != '\n',
    }
}

/// How many characters of a class follow one another from index `i`
/// on.
pub open spec fn run(s: Seq<char>, i: int, class: CharClass) -> nat
    decreases s.len() - i,
{
    if 0 <= i < s.len() && in_class(class, s[i]) {
        1 + run(s, i + 1, class)
    } else {
        0
    }
}

/// Characters of a class from `i` up to `j`, and none at `j`, are the
/// whole run from `i`.
pub proof fn lemma_run(s: Seq<char>, i: int, j: int, class: CharClass)
    requires
        0 <= i <= j <= s.len(),
        forall|k: int| i <= k < j ==> in_class(class, #[trigger] s[k]),
        j < s.len() ==> !in_class(class, s[j]),
    ensures
        i + run(s, i, class) == j,
    decreases j - i,
{
    if i < j {
        lemma_run(s, i + 1, j, class);
    }
}

/// The run from `i` ends within the text, at a character that is not
/// of the class, and holds characters of the class only.
pub proof fn lemma_run_bound(s: Seq<char>, i: int, class: CharClass)
    requires
        0 <= i <= s.len(),
    ensures
        i + run(s, i, class) <= s.len(),
        i + run(s, i, class) < s.len() ==> !in_class(class, s[i + run(s, i, class)]),
        forall|k: int| i <= k < i + run(s, i, class) ==> in_class(class, #[trigger] s[k]),
    decreases s.len() - i,
{
    if i < s.len() && in_class(class, s[i]) {
        lemma_run_bound(s, i + 1, class);
    }
}

/// The index at which the run of characters of `class` from `i` ends.
pub fn scan(chars: &[char], i: usize, class: CharClass) -> (end: usize)
    requires
        i <= chars.len(),
    ensures
        end == i + run(chars@, i as int, class),
        i <= end <= chars.len(),
{
    let mut end: usize = i;
    while end < chars.len() && class_has(class, chars[end])
        invariant
            i <= end <= chars.len(),
            forall|k: int| i <= k < end ==> in_class(class, #[trigger] chars@[k]),
        decreases chars.len() - end,
    {
        end += 1;
    }
    proof {
        lemma_run(chars@, i as int, end as int, class);
    }
    end
}

/// The value of a decimal digit.
pub open spec fn digit_value(c: char) -> nat {
    (c as u32 - 0x30) as nat
}

/// The value of a sequence of decimal digits.
pub open spec fn decimal(digits: Seq<char>) -> nat
    decreases digits.len(),
{
    if digits.len() == 0 {
        0
    } else {
        decimal(digits.drop_last()) * 10 + digit_value(digits.last())
    }
}

/// The number that a text is the numeral of: one digit or more, and
/// nothing else.
pub open spec fn number_of(text: Seq<char>) -> Option<nat> {
    if text.len() > 0 && (forall|k: int| 0 <= k < text.len() ==> is_digit(#[trigger] text[k])) {
        Some(decimal(text))
    } else {
        None
    }
}

/// The first digits of a numeral stand for no more than the numeral.
pub proof fn lemma_decimal_prefix(digits: Seq<char>, n: int)
    requires
        0 <= n <= digits.len(),
    ensures
        decimal(digits.take(n)) <= decimal(digits),
    decreases digits.len() - n,
{
    if n < digits.len() {
        lemma_decimal_prefix(digits, n + 1);
        assert(digits.take(n + 1).drop_last() =~= digits.take(n));
    } else {
        assert(digits.take(n) =~= digits);
    }
}

/// The number that `text` is the numeral of, if it is one and the
/// number fits.
pub fn parse_decimal(text: &[char]) -> (value: Option<usize>)
    ensures
        value == (if number_of(text@) is Some && number_of(text@)->Some_0 <= usize::MAX {
            Some(number_of(text@)->Some_0 as usize)
        } else {
            None
        }),
{
    if text.len() == 0 {
        return None;
    }
    let mut value: usize = 0;
    let mut k: usize = 0;
    assert(text@.take(0) =~= Seq::<char>::empty());
    while k < text.len()
        invariant
            k <= text.len(),
            forall|j: int| 0 <= j < k ==> is_digit(#[trigger] text@[j]),
            value == decimal(text@.take(k as int)),
        decreases text.len() - k,
    {
        let c = text[k];
        if !('0' <= c && c <= '9') {
            return None;
        }
        let digit: usize = (c as u32 - 0x30) as usize;
        proof {
            assert(text@.take(k + 1).drop_last() =~= text@.take(k as int));
            if number_of(text@) is Some {
                lemma_decimal_prefix(text@, k + 1);
            }
        }
        match value.checked_mul(10) {
            Some(tens) => match tens.checked_add(digit) {
                Some(next) => {
                    value = next;
                },
                None => {
                    return None;
                },
            },
            None => {
                return None;
            },
        }
        k += 1;
    }
    assert(text@.take(k as int) =~= text@);
    Some(value)
}

/// The register that a register lexeme names: the number behind its
/// one-character sigil, if that is one of 0 to 7.
pub open spec fn register_of(text: Seq<char>) -> Option<u8> {
    if text.len() >= 1 && number_of(text.skip(1)) is Some && number_of(text.skip(1))->Some_0 <= 7 {
        Some(number_of(text.skip(1))->Some_0 as u8)
    } else {
        None
    }
}

/// The byte that a numeral stands for, if it is one of 0 to 255.
pub open spec fn immediate_of(text: Seq<char>) -> Option<u8> {
    if number_of(text) is Some && number_of(text)->Some_0 <= 255 {
        Some(number_of(text)->Some_0 as u8)
    } else {
        None
    }
}

/// The condition that a keyword names. The keywords are written in
/// capitals.
pub open spec fn cond_of(text: Seq<char>) -> Option<CarbonConds> {
    if text == "ZR"@ {
        Some(CarbonConds::ZR)
    } else if text == "NZR"@ {
        Some(CarbonConds::NZR)
    } else if text == "MSB"@ {
        Some(CarbonConds::MSB)
    } else if text == "NMSB"@ {
        Some(CarbonConds::NMSB)
    } else if text == "COUT"@ {
        Some(CarbonConds::COUT)
    } else if text == "NCOUT"@ {
        Some(CarbonConds::NCOUT)
    } else if text == "UCD"@ {
        Some(CarbonConds::UCD)
    } else {
        None
    }
}

/// The mnemonic that a keyword in capitals names.
pub open spec fn mnemonic_of(text: Seq<char>) -> Option<CarbonInstrVariants> {
    if text == "HLT"@ {
        Some(CarbonInstrVariants::Hlt)
    } else if text == "ADD"@ {
        Some(CarbonInstrVariants::Add)
    } else if text == "SUB"@ {
        Some(CarbonInstrVariants::Sub)
    } else if text == "BSUB"@ {
        Some(CarbonInstrVariants::Bsb)
    } else if text == "OR"@ {
        Some(CarbonInstrVariants::Or)
    } else if text == "ADC"@ {
        Some(CarbonInstrVariants::Nor)
    } else if text == "AND"@ {
        Some(CarbonInstrVariants::And)
    } else if text == "NAND"@ {
        Some(CarbonInstrVariants::Nand)
    } else if text == "XOR"@ {
        Some(CarbonInstrVariants::Xor)
    } else if text == "XNR"@ {
        Some(CarbonInstrVariants::Xnr)
    } else if text == "LDI"@ {
        Some(CarbonInstrVariants::Ldi)
    } else if text == "ADR"@ {
        Some(CarbonInstrVariants::Adr)
    } else if text == "RLD"@ {
        Some(CarbonInstrVariants::Rld)
    } else if text == "RST"@ {
        Some(CarbonInstrVariants::Rst)
    } else if text == "MST"@ {
        Some(CarbonInstrVariants::Mst)
    } else if text == "MLD"@ {
        Some(CarbonInstrVariants::Mld)
    } else if text == "ICS"@ {
        Some(CarbonInstrVariants::Ics)
    } else if text == "JID"@ {
        Some(CarbonInstrVariants::Jid)
    } else if text == "BRC"@ {
        Some(CarbonInstrVariants::Brc)
    } else if text == "CMP"@ {
        Some(CarbonInstrVariants::Cmp)
    } else if text == "BSR"@ {
        Some(CarbonInstrVariants::Bsr)
    } else if text == "BSL"@ {
        Some(CarbonInstrVariants::Bsl)
    } else if text == "PST"@ {
        Some(CarbonInstrVariants::Pst)
    } else if text == "PLD"@ {
        Some(CarbonInstrVariants::Pld)
    } else if text == "INC"@ {
        Some(CarbonInstrVariants::Inc)
    } else if text == "DEC"@ {
        Some(CarbonInstrVariants::Dec)
    } else {
        None
    }
}

/// A small letter of the Latin alphabet as its capital; every other
/// character as it is.
pub open spec fn upper(c: char) -> char {
    if 'a' <= c <= 'z' {
        ((c as u8) - 32) as char
    } else {
        c
    }
}

/// A text with each of its characters in capitals.
pub open spec fn uppercase(text: Seq<char>) -> Seq<char> {
    Seq::new(text.len(), |k: int| upper(text[k]))
}

/// The mnemonic that a keyword names, in capitals or small letters or
/// both.
pub open spec fn instr_of(text: Seq<char>) -> Option<CarbonInstrVariants> {
    mnemonic_of(uppercase(text))
}

/// Whether `text` holds the characters of `word`.
fn same_text(text: &[char], word: &str) -> (same: bool)
    ensures
        same == (text@ == word@),
{
    let n = word.unicode_len();
    if text.len() != n {
        return false;
    }
    let mut k: usize = 0;
    while k < n
        invariant
            k <= n,
            n == text@.len(),
            n == word@.len(),
            forall|j: int| 0 <= j < k ==> text@[j] == word@[j],
        decreases n - k,
    {
        if text[k] != word.get_char(k) {
            return false;
        }
        k += 1;
    }
    assert(text@ =~= word@);
    true
}

/// The register that a register lexeme names: the number behind its
/// one-character sigil, if that is one of 0 to 7.
pub fn register(text: &[char]) -> (index: Option<u8>)
    ensures
        index == register_of(text@),
{
    if text.len() < 1 {
        return None;
    }
    match parse_decimal(slice_subrange(text, 1, text.len())) {
        Some(n) => if n <= 7 {
            Some(n as u8)
        } else {
            None
        },
        None => None,
    }
}

/// The byte that a numeral stands for, if it is one of 0 to 255.
pub fn immediate(text: &[char]) -> (value: Option<u8>)
    ensures
        value == immediate_of(text@),
{
    match parse_decimal(text) {
        Some(n) => if n <= 255 {
            Some(n as u8)
        } else {
            None
        },
        None => None,
    }
}

/// The condition that a keyword names.
pub fn cond(text: &[char]) -> (condition: Option<CarbonConds>)
    ensures
        condition == cond_of(text@),
{
    if same_text(text, "ZR") {
        Some(CarbonConds::ZR)
    } else if same_text(text, "NZR") {
        Some(CarbonConds::NZR)
    } else if same_text(text, "MSB") {
        Some(CarbonConds::MSB)
    } else if same_text(text, "NMSB") {
        Some(CarbonConds::NMSB)
    } else if same_text(text, "COUT") {
        Some(CarbonConds::COUT)
    } else if same_text(text, "NCOUT") {
        Some(CarbonConds::NCOUT)
    } else if same_text(text, "UCD") {
        Some(CarbonConds::UCD)
    } else {
        None
    }
}

/// The mnemonic that a keyword names, in capitals or small letters or
/// both.
pub fn instr(text: &[char]) -> (mnemonic: Option<CarbonInstrVariants>)
    ensures
        mnemonic == instr_of(text@),
{
    let mut capitals: Vec<char> = Vec::new();
    let mut k: usize = 0;
    while k < text.len()
        invariant
            k <= text.len(),
            capitals@ == uppercase(text@).take(k as int),
        decreases text.len() - k,
    {
        let c = text[k];
        let capital = if 'a' <= c && c <= 'z' {
            ((c as u8) - 32) as char
        } else {
            c
        };
        capitals.push(capital);
        assert(capitals@ =~= uppercase(text@).take(k + 1));
        k += 1;
    }
    assert(capitals@ =~= uppercase(text@));
    let word = capitals.as_slice();
    if same_text(word, "HLT") {
        Some(CarbonInstrVariants::Hlt)
    } else if same_text(word, "ADD") {
        Some(CarbonInstrVariants::Add)
    } else if same_text(word, "SUB") {
        Some(CarbonInstrVariants::Sub)
    } else if same_text(word, "BSUB") {
        Some(CarbonInstrVariants::Bsb)
    } else if same_text(word, "OR") {
        Some(CarbonInstrVariants::Or)
    } else if same_text(word, "ADC") {
        Some(CarbonInstrVariants::Nor)
    } else if same_text(word, "AND") {
        Some(CarbonInstrVariants::And)
    } else if same_text(word, "NAND") {
        Some(CarbonInstrVariants::Nand)
    } else if same_text(word, "XOR") {
        Some(CarbonInstrVariants::Xor)
    } else if same_text(word, "XNR") {
        Some(CarbonInstrVariants::Xnr)
    } else if same_text(word, "LDI") {
        Some(CarbonInstrVariants::Ldi)
    } else if same_text(word, "ADR") {
        Some(CarbonInstrVariants::Adr)
    } else if same_text(word, "RLD") {
        Some(CarbonInstrVariants::Rld)
    } else if same_text(word, "RST") {
        Some(CarbonInstrVariants::Rst)
    } else if same_text(word, "MST") {
        Some(CarbonInstrVariants::Mst)
    } else if same_text(word, "MLD") {
        Some(CarbonInstrVariants::Mld)
    } else if same_text(word, "ICS") {
        Some(CarbonInstrVariants::Ics)
    } else if same_text(word, "JID") {
        Some(CarbonInstrVariants::Jid)
    } else if same_text(word, "BRC") {
        Some(CarbonInstrVariants::Brc)
    } else if same_text(word, "CMP") {
        Some(CarbonInstrVariants::Cmp)
    } else if same_text(word, "BSR") {
        Some(CarbonInstrVariants::Bsr)
    } else if same_text(word, "BSL") {
        Some(CarbonInstrVariants::Bsl)
    } else if same_text(word, "PST") {
        Some(CarbonInstrVariants::Pst)
    } else if same_text(word, "PLD") {
        Some(CarbonInstrVariants::Pld)
    } else if same_text(word, "INC") {
        Some(CarbonInstrVariants::Inc)
    } else if same_text(word, "DEC") {
        Some(CarbonInstrVariants::Dec)
    } else {
        None
    }
}

/// A token, and the index of the first character after it.
pub struct Lexed {
    pub token: TokenView,
    pub next: int,
}

/// The error that the text from `i` up to `end` is.
pub open spec fn failure(kind: LexErrorKind, s: Seq<char>, i: int, end: int) -> Result<
    Lexed,
    LexErrorView,
> {
    Err(LexErrorView { kind, text: s.subrange(i, end), at: i })
}

/// A comment runs from its marker to the end of the line. The marker is
/// part of its text, the line feed is not.
pub open spec fn comment_at(s: Seq<char>, i: int) -> Result<Lexed, LexErrorView> {
    let end = i + run(s, i, CharClass::NotNewline);
    Ok(Lexed { token: TokenView::Comment(s.subrange(i, end)), next: end })
}

/// A label definition is a full stop, one character that is no line
/// feed, and the characters up to the next white space. Its name is
/// what follows the full stop.
pub open spec fn label_at(s: Seq<char>, i: int) -> Result<Lexed, LexErrorView> {
    if i + 1 < s.len() && s[i + 1] != '\n' {
        let end = i + 2 + run(s, i + 2, CharClass::NonSpace);
        Ok(Lexed { token: TokenView::Label(s.subrange(i + 1, end)), next: end })
    } else {
        failure(LexErrorKind::Unrecognized, s, i, i + 1)
    }
}

/// A page directive is a greater-than sign and the characters up to the
/// next white space, which are the numeral of the page.
pub open spec fn page_at(s: Seq<char>, i: int) -> Result<Lexed, LexErrorView> {
    if i + 1 < s.len() && s[i + 1] != '\n' {
        let end = i + 2 + run(s, i + 2, CharClass::NonSpace);
        let page = number_of(s.subrange(i + 1, end));
        if page is Some && page->Some_0 <= usize::MAX {
            Ok(Lexed { token: TokenView::PageLabel(page->Some_0 as usize), next: end })
        } else {
            failure(LexErrorKind::InvalidPage, s, i, end)
        }
    } else {
        failure(LexErrorKind::Unrecognized, s, i, i + 1)
    }
}

/// A label reference is a name of word characters, which may be empty,
/// in square brackets.
pub open spec fn reference_at(s: Seq<char>, i: int) -> Result<Lexed, LexErrorView> {
    let end = i + 1 + run(s, i + 1, CharClass::Word);
    if end < s.len() && s[end] == ']' {
        Ok(Lexed { token: TokenView::LabelDeref(s.subrange(i + 1, end)), next: end + 1 })
    } else {
        failure(LexErrorKind::Unrecognized, s, i, i + 1)
    }
}

/// A register with the dollar sign is the sign and the digits that
/// follow it, which are the numeral of one of the registers 0 to 7.
pub open spec fn dollar_at(s: Seq<char>, i: int) -> Result<Lexed, LexErrorView> {
    let end = i + 1 + run(s, i + 1, CharClass::Digit);
    match register_of(s.subrange(i, end)) {
        Some(index) => Ok(Lexed { token: TokenView::Register(index), next: end }),
        None => failure(LexErrorKind::InvalidRegister, s, i, end),
    }
}

/// A register as a word: the letter r, small or capital, and one of the
/// digits 0 to 7.
pub open spec fn is_register_word(word: Seq<char>) -> bool {
    word.len() == 2 && (word[0] == 'r' || word[0] == 'R') && '0' <= word[1] <= '7'
}

/// The token that a word is. A register comes before a number, a
/// number and a condition before a mnemonic. A number above 255 and a
/// word that is none of these are errors.
pub open spec fn word_token(word: Seq<char>) -> Result<TokenView, LexErrorKind> {
    if is_register_word(word) {
        Ok(TokenView::Register(register_of(word)->Some_0))
    } else if number_of(word) is Some {
        match immediate_of(word) {
            Some(value) => Ok(TokenView::Immediate(value)),
            None => Err(LexErrorKind::InvalidImmediate),
        }
    } else if cond_of(word) is Some {
        Ok(TokenView::Cond(cond_of(word)->Some_0))
    } else {
        match instr_of(word) {
            Some(op) => Ok(TokenView::Instr(op)),
            None => Err(LexErrorKind::InvalidInstruction),
        }
    }
}

/// A word is the word characters that follow one another: the longest
/// match decides, so that a keyword with more word characters behind it
/// is no keyword.
pub open spec fn word_at(s: Seq<char>, i: int) -> Result<Lexed, LexErrorView> {
    let end = i + run(s, i, CharClass::Word);
    match word_token(s.subrange(i, end)) {
        Ok(token) => Ok(Lexed { token, next: end }),
        Err(kind) => failure(kind, s, i, end),
    }
}

/// The token that begins at index `i`, which holds no white space.
pub open spec fn token_at(s: Seq<char>, i: int) -> Result<Lexed, LexErrorView> {
    let c = s[i];
    if c == '#' || (c == '/' && i + 1 < s.len() && s[i + 1] == '/') {
        comment_at(s, i)
    } else if c == '.' {
        label_at(s, i)
    } else if c == '>' {
        page_at(s, i)
    } else if c == '[' {
        reference_at(s, i)
    } else if c == '$' {
        dollar_at(s, i)
    } else if is_word(c) {
        word_at(s, i)
    } else {
        failure(LexErrorKind::Unrecognized, s, i, i + 1)
    }
}

/// `token` in front of what `rest` holds, or the error that `rest` is.
pub open spec fn prepend_token(token: TokenView, rest: Result<Seq<TokenView>, LexErrorView>) -> Result<
    Seq<TokenView>,
    LexErrorView,
> {
    match rest {
        Ok(more) => Ok(seq![token] + more),
        Err(e) => Err(e),
    }
}

/// The tokens of the text from index `i` on, or the first error in it.
/// White space between tokens is passed over.
pub open spec fn lex_from(s: Seq<char>, i: int) -> Result<Seq<TokenView>, LexErrorView>
    decreases s.len() - i,
{
    let j = i + run(s, i, CharClass::Space);
    if 0 <= j < s.len() {
        match token_at(s, j) {
            Err(e) => Err(e),
            Ok(lexed) => if j < lexed.next <= s.len() {
                prepend_token(lexed.token, lex_from(s, lexed.next))
            } else {
                Ok(seq![lexed.token])
            },
        }
    } else {
        Ok(seq![])
    }
}

/// The tokens of a source text, or the first lexical error in it.
pub open spec fn tokens_of(s: Seq<char>) -> Result<Seq<TokenView>, LexErrorView> {
    lex_from(s, 0)
}

/// The mathematical value of what [`tokenise`] returns.
pub open spec fn lex_result_view(res: Result<Vec<Token>, LexError>) -> Result<
    Seq<TokenView>,
    LexErrorView,
> {
    match res {
        Ok(toks) => Ok(toks.deep_view()),
        Err(e) => Err(e@),
    }
}

/// Every token ends after the character it began at, and within the
/// text.
pub proof fn lemma_token_advances(s: Seq<char>, i: int)
    requires
        0 <= i < s.len(),
        token_at(s, i) is Ok,
    ensures
        i < token_at(s, i)->Ok_0.next <= s.len(),
{
    lemma_run_bound(s, i, CharClass::NotNewline);
    lemma_run_bound(s, i, CharClass::Word);
    lemma_run_bound(s, i + 1, CharClass::Word);
    lemma_run_bound(s, i + 1, CharClass::Digit);
    if i + 2 <= s.len() {
        lemma_run_bound(s, i + 2, CharClass::NonSpace);
    }
}

/// The characters from index `from` up to `to` as a string.
pub fn text_of(chars: &[char], from: usize, to: usize) -> (text: String)
    requires
        from <= to <= chars.len(),
    ensures
        text@ == chars@.subrange(from as int, to as int),
{
    let mut text = String::new();
    let mut k: usize = from;
    assert(text@ =~= chars@.subrange(from as int, from as int));
    while k < to
        invariant
            from <= k <= to <= chars.len(),
            text@ == chars@.subrange(from as int, k as int),
        decreases to - k,
    {
        text.push(chars[k]);
        assert(text@ =~= chars@.subrange(from as int, k + 1));
        k += 1;
    }
    text
}

/// The error that the text from `from` up to `to` is.
fn lex_error(kind: LexErrorKind, chars: &[char], from: usize, to: usize) -> (res: Result<
    (Token, usize),
    LexError,
>)
    requires
        from <= to <= chars.len(),
    ensures
        res is Err,
        Err::<Lexed, LexErrorView>(res->Err_0@) == failure(kind, chars@, from as int, to as int),
{
    Err(LexError { kind, text: text_of(chars, from, to), at: from })
}

/// The token that a word is.
pub fn classify_word(word: &[char]) -> (res: Result<Token, LexErrorKind>)
    ensures
        match word_token(word@) {
            Ok(token) => res is Ok && res->Ok_0@ == token,
            Err(kind) => res == Err::<Token, LexErrorKind>(kind),
        },
{
    let registers = word.len() == 2 && (word[0] == 'r' || word[0] == 'R') && '0' <= word[1]
        && word[1] <= '7';
    if registers {
        proof {
            let digits = word@.skip(1);
            assert(digits.drop_last() =~= Seq::<char>::empty());
            assert(decimal(digits.drop_last()) == 0);
            assert(decimal(digits) == digit_value(word@[1]));
        }
        match register(word) {
            Some(index) => Ok(Token::Register(index)),
            None => Err(LexErrorKind::InvalidRegister),
        }
    } else if let Some(_) = parse_digits(word) {
        match immediate(word) {
            Some(value) => Ok(Token::Immediate(value)),
            None => Err(LexErrorKind::InvalidImmediate),
        }
    } else if let Some(condition) = cond(word) {
        Ok(Token::Cond(condition))
    } else {
        match instr(word) {
            Some(op) => Ok(Token::Instr(op)),
            None => Err(LexErrorKind::InvalidInstruction),
        }
    }
}

/// `Some` if `text` is a numeral: one digit or more, and nothing else.
fn parse_digits(text: &[char]) -> (numeral: Option<()>)
    ensures
        numeral is Some == number_of(text@) is Some,
{
    if text.len() > 0 && scan(text, 0, CharClass::Digit) == text.len() {
        proof {
            lemma_run_bound(text@, 0, CharClass::Digit);
        }
        Some(())
    } else {
        proof {
            lemma_run_bound(text@, 0, CharClass::Digit);
        }
        None
    }
}

/// The token that begins at index `i`, and the index of the first
/// character after it.
pub fn lex_token(chars: &[char], i: usize) -> (res: Result<(Token, usize), LexError>)
    requires
        i < chars.len(),
    ensures
        match token_at(chars@, i as int) {
            Ok(lexed) => res is Ok && res->Ok_0.0@ == lexed.token && res->Ok_0.1 == lexed.next,
            Err(e) => res is Err && res->Err_0@ == e,
        },
{
    let c = chars[i];
    if c == '#' || (c == '/' && i + 1 < chars.len() && chars[i + 1] == '/') {
        let end = scan(chars, i, CharClass::NotNewline);
        Ok((Token::Comment(text_of(chars, i, end)), end))
    } else if c == '.' {
        if i + 1 < chars.len() && chars[i + 1] != '\n' {
            let end = scan(chars, i + 2, CharClass::NonSpace);
            Ok((Token::Label(text_of(chars, i + 1, end)), end))
        } else {
            lex_error(LexErrorKind::Unrecognized, chars, i, i + 1)
        }
    } else if c == '>' {
        if i + 1 < chars.len() && chars[i + 1] != '\n' {
            let end = scan(chars, i + 2, CharClass::NonSpace);
            match parse_decimal(slice_subrange(chars, i + 1, end)) {
                Some(page) => Ok((Token::PageLabel(page), end)),
                None => lex_error(LexErrorKind::InvalidPage, chars, i, end),
            }
        } else {
            lex_error(LexErrorKind::Unrecognized, chars, i, i + 1)
        }
    } else if c == '[' {
        let end = scan(chars, i + 1, CharClass::Word);
        if end < chars.len() && chars[end] == ']' {
            Ok((Token::LabelDeref(text_of(chars, i + 1, end)), end + 1))
        } else {
            lex_error(LexErrorKind::Unrecognized, chars, i, i + 1)
        }
    } else if c == '$' {
        let end = scan(chars, i + 1, CharClass::Digit);
        match register(slice_subrange(chars, i, end)) {
            Some(index) => Ok((Token::Register(index), end)),
            None => lex_error(LexErrorKind::InvalidRegister, chars, i, end),
        }
    } else if class_has(CharClass::Word, c) {
        let end = scan(chars, i, CharClass::Word);
        match classify_word(slice_subrange(chars, i, end)) {
            Ok(token) => Ok((token, end)),
            Err(kind) => lex_error(kind, chars, i, end),
        }
    } else {
        lex_error(LexErrorKind::Unrecognized, chars, i, i + 1)
    }
}

/// The characters of a text.
pub fn chars_of(src: &str) -> (chars: Vec<char>)
    ensures
        chars@ == src@,
{
    let mut chars: Vec<char> = Vec::new();
    for c in it: src.chars()
        invariant
            chars@ == it.seq().take(it.index() as int),
    {
        chars.push(c);
    }
    chars
}

/// Turns a source text into its tokens.
///
/// White space separates tokens and is passed over. A token is a
/// comment, from `#` or `//` to the end of the line; a label
/// definition, `.name`; a page directive, `>` and a number; a label
/// reference, `[name]`; a register, `$` and a number from 0 to 7 or
/// the letter r and one such digit; a number from 0 to 255; a
/// condition keyword; or a mnemonic, in capitals or small letters.
/// Where more than one of these could begin, the longest decides, and
/// among equals a register comes before a number, and both and a
/// condition before a mnemonic. The first piece of text that is no
/// token ends the run with an error that holds it.
pub fn tokenise(src: &str) -> (res: Result<Vec<Token>, LexError>)
    ensures
        lex_result_view(res) == tokens_of(src@),
{
    let text = chars_of(src);
    let chars = text.as_slice();
    let mut toks: Vec<Token> = Vec::new();
    let mut i: usize = 0;
    let ghost mut done: Seq<TokenView> = Seq::empty();
    loop
        invariant
            chars@ == src@,
            i <= chars.len(),
            toks.deep_view() == done,
            forall|rest: Seq<TokenView>|
                lex_from(src@, i as int) == Ok::<Seq<TokenView>, LexErrorView>(rest) ==> tokens_of(
                    src@,
                ) == Ok::<Seq<TokenView>, LexErrorView>(done + rest),
            forall|e: LexErrorView|
                lex_from(src@, i as int) == Err::<Seq<TokenView>, LexErrorView>(e) ==> tokens_of(
                    src@,
                ) == Err::<Seq<TokenView>, LexErrorView>(e),
        decreases chars.len() - i,
    {
        let j = scan(chars, i, CharClass::Space);
        if j >= chars.len() {
            assert(done + Seq::<TokenView>::empty() =~= done);
            return Ok(toks);
        }
        proof {
            if token_at(src@, j as int) is Ok {
                lemma_token_advances(src@, j as int);
            }
        }
        match lex_token(chars, j) {
            Err(e) => {
                return Err(e);
            },
            Ok((token, next)) => {
                proof {
                    let before = done;
                    done = done.push(token@);
                    assert forall|rest: Seq<TokenView>|
                        lex_from(src@, next as int) == Ok::<Seq<TokenView>, LexErrorView>(
                            rest,
                        ) implies tokens_of(src@) == Ok::<Seq<TokenView>, LexErrorView>(
                        done + rest,
                    ) by {
                        assert(before + (seq![token@] + rest) =~= done + rest);
                    }
                }
                toks.push(token);
                assert(toks.deep_view() =~= done);
                i = next;
            },
        }
    }
}

/// Whether a token, if it is a register, is one of the registers 0 to
/// 7.
pub open spec fn register_in_range(token: TokenView) -> bool {
    token matches TokenView::Register(index) ==> index < 8
}

/// Every register among the tokens of a text is one of the registers 0
/// to 7.
pub proof fn lemma_lexed_registers(s: Seq<char>, i: int)
    requires
        0 <= i,
        lex_from(s, i) is Ok,
    ensures
        forall|k: int|
            0 <= k < lex_from(s, i)->Ok_0.len() ==> register_in_range(
                #[trigger] lex_from(s, i)->Ok_0[k],
            ),
    decreases s.len() - i,
{
    let j = i + run(s, i, CharClass::Space);
    if j < s.len() {
        let lexed = token_at(s, j)->Ok_0;
        assert(register_in_range(lexed.token)) by {
            let word = s.subrange(j, j + run(s, j, CharClass::Word));
            if is_register_word(word) {
                let digits = word.skip(1);
                assert(digits.len() == 1);
                assert(digits.drop_last() =~= Seq::<char>::empty());
                assert(decimal(digits.drop_last()) == 0);
                assert(digits.last() == word[1]);
                assert(decimal(digits) == digit_value(word[1]));
            }
        }
        if j < lexed.next <= s.len() {
            lemma_lexed_registers(s, lexed.next);
            let rest = lex_from(s, lexed.next)->Ok_0;
            let all = lex_from(s, i)->Ok_0;
            assert forall|k: int| 0 <= k < all.len() implies register_in_range(
                #[trigger] all[k],
            ) by {
                if k > 0 {
                    assert(all[k] == rest[k - 1]);
                }
            }
        }
    }
}

} // verus!
