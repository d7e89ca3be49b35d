use carbon_asm::frontend::lexer::{
    chars_of, class_has, classify_word, cond, immediate, instr, lex_token, parse_decimal, register,
    scan, text_of, tokenise, CharClass, LexError, LexErrorKind, Token,
};
use carbon_asm::instr::{CarbonConds, CarbonInstrVariants};

fn chars(text: &str) -> Vec<char> {
    text.chars().collect()
}

fn lex_err(kind: LexErrorKind, text: &str, at: usize) -> Result<Vec<Token>, LexError> {
    Err(LexError { kind, text: text.to_string(), at })
}

#[test]
fn mnemonic_with_dollar_register() {
    assert_eq!(
        tokenise("ADD $1"),
        Ok(vec![Token::Instr(CarbonInstrVariants::Add), Token::Register(1)])
    );
}

#[test]
fn mnemonics_are_case_insensitive() {
    assert_eq!(
        tokenise("add Add aDD ADD"),
        Ok(vec![
            Token::Instr(CarbonInstrVariants::Add),
            Token::Instr(CarbonInstrVariants::Add),
            Token::Instr(CarbonInstrVariants::Add),
            Token::Instr(CarbonInstrVariants::Add),
        ])
    );
}

#[test]
fn every_mnemonic_has_its_keyword() {
    let table = [
        ("HLT", CarbonInstrVariants::Hlt),
        ("ADD", CarbonInstrVariants::Add),
        ("SUB", CarbonInstrVariants::Sub),
        ("BSUB", CarbonInstrVariants::Bsb),
        ("OR", CarbonInstrVariants::Or),
        ("ADC", CarbonInstrVariants::Nor),
        ("AND", CarbonInstrVariants::And),
        ("NAND", CarbonInstrVariants::Nand),
        ("XOR", CarbonInstrVariants::Xor),
        ("XNR", CarbonInstrVariants::Xnr),
        ("LDI", CarbonInstrVariants::Ldi),
        ("ADR", CarbonInstrVariants::Adr),
        ("RLD", CarbonInstrVariants::Rld),
        ("RST", CarbonInstrVariants::Rst),
        ("MST", CarbonInstrVariants::Mst),
        ("MLD", CarbonInstrVariants::Mld),
        ("ICS", CarbonInstrVariants::Ics),
        ("JID", CarbonInstrVariants::Jid),
        ("BRC", CarbonInstrVariants::Brc),
        ("CMP", CarbonInstrVariants::Cmp),
        ("BSR", CarbonInstrVariants::Bsr),
        ("BSL", CarbonInstrVariants::Bsl),
        ("PST", CarbonInstrVariants::Pst),
        ("PLD", CarbonInstrVariants::Pld),
        ("INC", CarbonInstrVariants::Inc),
        ("DEC", CarbonInstrVariants::Dec),
    ];
    for (word, op) in table {
        assert_eq!(instr(&chars(word)), Some(op), "{}", word);
        assert_eq!(instr(&chars(&word.to_lowercase())), Some(op), "{}", word);
        assert_eq!(tokenise(word), Ok(vec![Token::Instr(op)]), "{}", word);
    }
}

#[test]
fn instr_rejects_what_is_no_mnemonic() {
    assert_eq!(instr(&chars("")), None);
    assert_eq!(instr(&chars("NOR")), None);
    assert_eq!(instr(&chars("HLTX")), None);
    assert_eq!(instr(&chars("HL")), None);
    assert_eq!(instr(&chars("H_T")), None);
}

#[test]
fn every_condition_has_its_keyword() {
    assert_eq!(
        tokenise("ZR NZR MSB NMSB COUT NCOUT UCD"),
        Ok(vec![
            Token::Cond(CarbonConds::ZR),
            Token::Cond(CarbonConds::NZR),
            Token::Cond(CarbonConds::MSB),
            Token::Cond(CarbonConds::NMSB),
            Token::Cond(CarbonConds::COUT),
            Token::Cond(CarbonConds::NCOUT),
            Token::Cond(CarbonConds::UCD),
        ])
    );
}

#[test]
fn cond_keywords_are_capitals_only() {
    assert_eq!(cond(&chars("COUT")), Some(CarbonConds::COUT));
    assert_eq!(cond(&chars("cout")), None);
    assert_eq!(cond(&chars("Zr")), None);
    assert_eq!(cond(&chars("")), None);
    assert_eq!(tokenise("zr"), lex_err(LexErrorKind::InvalidInstruction, "zr", 0));
}

#[test]
fn keyword_with_more_behind_it_is_no_keyword() {
    assert_eq!(tokenise("ZRX"), lex_err(LexErrorKind::InvalidInstruction, "ZRX", 0));
    assert_eq!(tokenise("ADDX"), lex_err(LexErrorKind::InvalidInstruction, "ADDX", 0));
    assert_eq!(tokenise("12ab"), lex_err(LexErrorKind::InvalidInstruction, "12ab", 0));
    assert_eq!(tokenise("r12"), lex_err(LexErrorKind::InvalidInstruction, "r12", 0));
}

#[test]
fn registers_with_the_letter_r() {
    assert_eq!(
        tokenise("r0 R7 r3"),
        Ok(vec![Token::Register(0), Token::Register(7), Token::Register(3)])
    );
}

#[test]
fn register_letter_with_a_digit_out_of_range_is_a_bare_word() {
    assert_eq!(tokenise("HLT r8"), lex_err(LexErrorKind::InvalidInstruction, "r8", 4));
    assert_eq!(tokenise("R9"), lex_err(LexErrorKind::InvalidInstruction, "R9", 0));
}

#[test]
fn registers_with_the_dollar_sign() {
    assert_eq!(
        tokenise("$0 $7 $007"),
        Ok(vec![Token::Register(0), Token::Register(7), Token::Register(7)])
    );
}

#[test]
fn dollar_register_out_of_range() {
    assert_eq!(tokenise("$8"), lex_err(LexErrorKind::InvalidRegister, "$8", 0));
    assert_eq!(tokenise("ADD $12"), lex_err(LexErrorKind::InvalidRegister, "$12", 4));
    assert_eq!(
        tokenise("$99999999999999999999999999"),
        lex_err(LexErrorKind::InvalidRegister, "$99999999999999999999999999", 0)
    );
}

#[test]
fn dollar_without_a_number() {
    assert_eq!(tokenise("$"), lex_err(LexErrorKind::InvalidRegister, "$", 0));
    assert_eq!(tokenise("$x"), lex_err(LexErrorKind::InvalidRegister, "$", 0));
}

#[test]
fn register_strips_one_sigil() {
    assert_eq!(register(&chars("$5")), Some(5));
    assert_eq!(register(&chars("r5")), Some(5));
    assert_eq!(register(&chars("$8")), None);
    assert_eq!(register(&chars("$")), None);
    assert_eq!(register(&chars("")), None);
    assert_eq!(register(&chars("$1x")), None);
}

#[test]
fn immediates_in_range() {
    assert_eq!(
        tokenise("0 7 255 0042"),
        Ok(vec![
            Token::Immediate(0),
            Token::Immediate(7),
            Token::Immediate(255),
            Token::Immediate(42),
        ])
    );
}

#[test]
fn immediate_out_of_range() {
    assert_eq!(tokenise("256"), lex_err(LexErrorKind::InvalidImmediate, "256", 0));
    assert_eq!(
        tokenise("1 340282366920938463463374607431768211456"),
        lex_err(
            LexErrorKind::InvalidImmediate,
            "340282366920938463463374607431768211456",
            2
        )
    );
}

#[test]
fn immediate_of_a_numeral() {
    assert_eq!(immediate(&chars("0")), Some(0));
    assert_eq!(immediate(&chars("255")), Some(255));
    assert_eq!(immediate(&chars("256")), None);
    assert_eq!(immediate(&chars("")), None);
    assert_eq!(immediate(&chars("1a")), None);
    assert_eq!(immediate(&chars("+1")), None);
}

#[test]
fn parse_decimal_fits_or_fails() {
    assert_eq!(parse_decimal(&chars("0")), Some(0));
    assert_eq!(parse_decimal(&chars("1024")), Some(1024));
    assert_eq!(parse_decimal(&chars(&usize::MAX.to_string())), Some(usize::MAX));
    assert_eq!(parse_decimal(&chars(&format!("{}0", usize::MAX))), None);
    assert_eq!(parse_decimal(&chars("")), None);
    assert_eq!(parse_decimal(&chars("12x")), None);
}

#[test]
fn comments_keep_their_marker_and_end_with_the_line() {
    assert_eq!(
        tokenise("# hello\nHLT // bye"),
        Ok(vec![
            Token::Comment("# hello".to_string()),
            Token::Instr(CarbonInstrVariants::Hlt),
            Token::Comment("// bye".to_string()),
        ])
    );
}

#[test]
fn comment_holds_what_would_be_tokens() {
    assert_eq!(
        tokenise("#ADD $9 [x] @\n1"),
        Ok(vec![Token::Comment("#ADD $9 [x] @".to_string()), Token::Immediate(1)])
    );
}

#[test]
fn comment_keeps_a_carriage_return() {
    assert_eq!(
        tokenise("# a\r\n5"),
        Ok(vec![Token::Comment("# a\r".to_string()), Token::Immediate(5)])
    );
}

#[test]
fn single_slash_is_no_token() {
    assert_eq!(tokenise("/ x"), lex_err(LexErrorKind::Unrecognized, "/", 0));
    assert_eq!(tokenise("1 /"), lex_err(LexErrorKind::Unrecognized, "/", 2));
}

#[test]
fn label_definition() {
    assert_eq!(
        tokenise(".loop HLT"),
        Ok(vec![Token::Label("loop".to_string()), Token::Instr(CarbonInstrVariants::Hlt)])
    );
}

#[test]
fn label_definition_runs_to_the_next_white_space() {
    assert_eq!(tokenise(".a-b[c]#d\tHLT"), Ok(vec![
        Token::Label("a-b[c]#d".to_string()),
        Token::Instr(CarbonInstrVariants::Hlt),
    ]));
}

#[test]
fn label_definition_takes_one_character_whatever_it_is() {
    assert_eq!(tokenise(". x"), Ok(vec![Token::Label(" x".to_string())]));
}

#[test]
fn full_stop_alone_is_no_token() {
    assert_eq!(tokenise("."), lex_err(LexErrorKind::Unrecognized, ".", 0));
    assert_eq!(tokenise("1 .\n2"), lex_err(LexErrorKind::Unrecognized, ".", 2));
}

#[test]
fn label_reference() {
    assert_eq!(
        tokenise("[loop] [] [a_1]"),
        Ok(vec![
            Token::LabelDeref("loop".to_string()),
            Token::LabelDeref("".to_string()),
            Token::LabelDeref("a_1".to_string()),
        ])
    );
}

#[test]
fn label_reference_must_close() {
    assert_eq!(tokenise("[loop"), lex_err(LexErrorKind::Unrecognized, "[", 0));
    assert_eq!(tokenise("[a b]"), lex_err(LexErrorKind::Unrecognized, "[", 0));
    assert_eq!(tokenise("]"), lex_err(LexErrorKind::Unrecognized, "]", 0));
}

#[test]
fn page_directive() {
    assert_eq!(
        tokenise(">2 >0 >31 >1000"),
        Ok(vec![
            Token::PageLabel(2),
            Token::PageLabel(0),
            Token::PageLabel(31),
            Token::PageLabel(1000),
        ])
    );
}

#[test]
fn page_directive_needs_a_number() {
    assert_eq!(tokenise(">x"), lex_err(LexErrorKind::InvalidPage, ">x", 0));
    assert_eq!(tokenise(">2a 5"), lex_err(LexErrorKind::InvalidPage, ">2a", 0));
    assert_eq!(tokenise("> 2"), lex_err(LexErrorKind::InvalidPage, "> 2", 0));
    assert_eq!(tokenise(">"), lex_err(LexErrorKind::Unrecognized, ">", 0));
    assert_eq!(tokenise(">\n2"), lex_err(LexErrorKind::Unrecognized, ">", 0));
}

#[test]
fn page_directive_too_large_for_the_machine() {
    let text = format!(">{}0", usize::MAX);
    assert_eq!(tokenise(&text), lex_err(LexErrorKind::InvalidPage, &text, 0));
}

#[test]
fn tokens_need_no_space_between_them() {
    assert_eq!(
        tokenise("ADD$1#c"),
        Ok(vec![
            Token::Instr(CarbonInstrVariants::Add),
            Token::Register(1),
            Token::Comment("#c".to_string()),
        ])
    );
    assert_eq!(
        tokenise("$1$2[x]5"),
        Ok(vec![
            Token::Register(1),
            Token::Register(2),
            Token::LabelDeref("x".to_string()),
            Token::Immediate(5),
        ])
    );
}

#[test]
fn white_space_of_every_kind_is_passed_over() {
    assert_eq!(
        tokenise(" \t\r\n\u{0B}\u{0C}\u{85}\u{A0}\u{1680}\u{2000}\u{200A}\u{2028}\u{2029}\u{202F}\u{205F}\u{3000}7 "),
        Ok(vec![Token::Immediate(7)])
    );
}

#[test]
fn empty_source_has_no_tokens() {
    assert_eq!(tokenise(""), Ok(vec![]));
    assert_eq!(tokenise("  \n\t "), Ok(vec![]));
}

#[test]
fn unrecognized_character_is_fatal() {
    assert_eq!(tokenise("HLT @ HLT"), lex_err(LexErrorKind::Unrecognized, "@", 4));
    assert_eq!(tokenise("1 \u{e9}"), lex_err(LexErrorKind::Unrecognized, "\u{e9}", 2));
    assert_eq!(tokenise("\u{200B}"), lex_err(LexErrorKind::Unrecognized, "\u{200B}", 0));
}

#[test]
fn error_position_counts_characters() {
    assert_eq!(
        tokenise("# \u{e9}\u{e9}\n  bogus"),
        lex_err(LexErrorKind::InvalidInstruction, "bogus", 7)
    );
}

#[test]
fn first_error_wins() {
    assert_eq!(tokenise("256 $9"), lex_err(LexErrorKind::InvalidImmediate, "256", 0));
    assert_eq!(tokenise("$9 256"), lex_err(LexErrorKind::InvalidRegister, "$9", 0));
}

#[test]
fn classify_word_goes_by_priority() {
    assert_eq!(classify_word(&chars("r3")), Ok(Token::Register(3)));
    assert_eq!(classify_word(&chars("12")), Ok(Token::Immediate(12)));
    assert_eq!(classify_word(&chars("300")), Err(LexErrorKind::InvalidImmediate));
    assert_eq!(classify_word(&chars("UCD")), Ok(Token::Cond(CarbonConds::UCD)));
    assert_eq!(classify_word(&chars("or")), Ok(Token::Instr(CarbonInstrVariants::Or)));
    assert_eq!(classify_word(&chars("nop")), Err(LexErrorKind::InvalidInstruction));
    assert_eq!(classify_word(&chars("")), Err(LexErrorKind::InvalidInstruction));
}

#[test]
fn lex_token_returns_the_index_behind_the_token() {
    let text = chars("ADD $1 # c\n5");
    assert_eq!(lex_token(&text, 0), Ok((Token::Instr(CarbonInstrVariants::Add), 3)));
    assert_eq!(lex_token(&text, 4), Ok((Token::Register(1), 6)));
    assert_eq!(lex_token(&text, 7), Ok((Token::Comment("# c".to_string()), 10)));
    assert_eq!(lex_token(&text, 11), Ok((Token::Immediate(5), 12)));
    assert_eq!(
        lex_token(&text, 1),
        Err(LexError { kind: LexErrorKind::InvalidInstruction, text: "DD".to_string(), at: 1 })
    );
}

#[test]
fn scan_finds_the_end_of_a_run() {
    let text = chars("  ab1_ x");
    assert_eq!(scan(&text, 0, CharClass::Space), 2);
    assert_eq!(scan(&text, 2, CharClass::Word), 6);
    assert_eq!(scan(&text, 2, CharClass::Digit), 2);
    assert_eq!(scan(&text, 4, CharClass::Digit), 5);
    assert_eq!(scan(&text, 2, CharClass::NonSpace), 6);
    assert_eq!(scan(&text, 0, CharClass::NotNewline), 8);
    assert_eq!(scan(&text, 8, CharClass::Word), 8);
}

#[test]
fn class_has_agrees_with_unicode_white_space() {
    for code in 0u32..0x3100 {
        if let Some(c) = char::from_u32(code) {
            assert_eq!(class_has(CharClass::Space, c), c.is_whitespace(), "{:x}", code);
            assert_eq!(class_has(CharClass::NonSpace, c), !c.is_whitespace(), "{:x}", code);
            assert_eq!(class_has(CharClass::Digit, c), c.is_ascii_digit(), "{:x}", code);
            assert_eq!(
                class_has(CharClass::Word, c),
                c.is_ascii_alphanumeric() || c == '_',
                "{:x}",
                code
            );
            assert_eq!(class_has(CharClass::NotNewline, c), c != '\n', "{:x}", code);
        }
    }
}

#[test]
fn chars_of_and_text_of_are_inverse() {
    let source = "a\u{e9}\u{1F600}b";
    let text = chars_of(source);
    assert_eq!(text, vec!['a', '\u{e9}', '\u{1F600}', 'b']);
    assert_eq!(text_of(&text, 0, 4), source.to_string());
    assert_eq!(text_of(&text, 1, 3), "\u{e9}\u{1F600}".to_string());
    assert_eq!(text_of(&text, 2, 2), String::new());
}

#[test]
fn token_duplicate_is_equal() {
    let toks = tokenise("ADD $1 ZR 5 #c\n.l [r] >3").unwrap();
    for tok in &toks {
        assert_eq!(&tok.duplicate(), tok);
    }
}
