use carbon_asm::backend::assembler::{EncodeError, PageOutput};
use carbon_asm::backend::listing::render;
use carbon_asm::frontend::lexer::{LexError, LexErrorKind, Token};
use carbon_asm::frontend::parser::{Expected, ParseError};
use carbon_asm::frontend::resolver::ResolveError;
use carbon_asm::pipeline::{translate, AsmError};

fn bytes(out: &[PageOutput]) -> Vec<u8> {
    out.iter()
        .filter_map(|item| match item {
            PageOutput::Lit(b) => Some(*b),
            PageOutput::Comment(_) => None,
        })
        .collect()
}

#[test]
fn small_program() {
    let out = translate("LDI $1 # load\n.loop\nADD $1\nBRC COUT [loop]\nHLT\n").unwrap();
    assert_eq!(
        &out[..7],
        &[
            PageOutput::Lit(0b01010001),
            PageOutput::Comment("# load".to_string()),
            PageOutput::Lit(0b00001001),
            PageOutput::Lit(0b10010101),
            PageOutput::Lit(0b00001000),
            PageOutput::Lit(0b11111000),
            PageOutput::Lit(0),
        ]
    );
    assert_eq!(out.len(), 1025);
}

#[test]
fn forward_reference_in_source() {
    let out = translate("BRC ZR [end] INC .end HLT").unwrap();
    assert_eq!(&bytes(&out)[..5], &[0b10010001, 3 << 3, 0b11001000, 0b11111000, 0]);
}

#[test]
fn label_in_another_page() {
    let out = translate(">2 5 .here [here] >0 [here]").unwrap();
    let image = bytes(&out);
    assert_eq!(image[64], 5);
    assert_eq!(image[65], 65);
    assert_eq!(image[0], 65);
}

#[test]
fn label_between_the_operands_stands_for_the_instruction() {
    let out = translate("1 BRC ZR .self [self]").unwrap();
    assert_eq!(&bytes(&out)[..3], &[1, 0b10010001, 1 << 3]);
}

#[test]
fn translation_is_repeatable() {
    let src = "# p\n>1 ADD r2 .a [a] BRC UCD [a] // q";
    let first = translate(src);
    let second = translate(src);
    assert_eq!(first, second);
    assert_eq!(render(&first.unwrap()), render(&second.unwrap()));
    assert_eq!(translate("ADD"), translate("ADD"));
}

#[test]
fn undefined_label_gives_no_output() {
    assert_eq!(
        translate("[missing]"),
        Err(AsmError::Resolve(ResolveError::Undefined { name: "missing".to_string() }))
    );
    assert_eq!(
        translate("HLT BRC ZR [missing] HLT"),
        Err(AsmError::Resolve(ResolveError::Undefined { name: "missing".to_string() }))
    );
}

#[test]
fn each_stage_reports_its_error() {
    assert_eq!(
        translate("HLT nop"),
        Err(AsmError::Lex(LexError {
            kind: LexErrorKind::InvalidInstruction,
            text: "nop".to_string(),
            at: 4
        }))
    );
    assert_eq!(
        translate("ADD 1"),
        Err(AsmError::Parse(ParseError {
            expected: Expected::Register,
            found: Some(Token::Immediate(1)),
            at: 1
        }))
    );
    assert_eq!(
        translate(".a .a"),
        Err(AsmError::Resolve(ResolveError::Duplicate { name: "a".to_string() }))
    );
    assert_eq!(translate(">32"), Err(AsmError::Encode(EncodeError::PageOutOfRange { page: 32 })));
    let long = "1 ".repeat(33);
    assert_eq!(translate(&long), Err(AsmError::Encode(EncodeError::PageOverflow { page: 0 })));
}

#[test]
fn earlier_stage_fails_first() {
    assert!(matches!(translate("[missing] ADD 1 $9"), Err(AsmError::Lex(_))));
    assert!(matches!(translate("[missing] ADD 1"), Err(AsmError::Parse(_))));
    assert!(matches!(translate("[missing] >40"), Err(AsmError::Resolve(_))));
}

#[test]
fn empty_source_is_the_empty_image() {
    assert_eq!(translate(""), Ok(vec![PageOutput::Lit(0); 1024]));
}

#[test]
fn listing_of_a_source() {
    let text = render(&translate("HLT # stop").unwrap());
    assert!(text.starts_with("// PAGE 0\n11111000 # stop\n00000000\n"));
}
