use rlp::character_class::CharacterClass;
use rlp::error::CompileError;
use rlp::lexer::{lex, PatternElement, Quantifier};

fn run(re: &str, answer: &[(PatternElement, Quantifier)], comment: &str) {
    assert_eq!(answer, lex(re).unwrap().as_slice(), "FAIL: {}", comment)
}

#[test]
fn lexer_it_works() {
    let abcd = lex("abcd").unwrap();
    assert_eq!(
        &[
            (PatternElement::Literal('a'), Quantifier::ExactlyOne),
            (PatternElement::Literal('b'), Quantifier::ExactlyOne),
            (PatternElement::Literal('c'), Quantifier::ExactlyOne),
            (PatternElement::Literal('d'), Quantifier::ExactlyOne)
        ],
        abcd.as_slice()
    )
}

#[test]
fn character_classes() {
    let cases = [
        (
            r"%a",
            [(
                PatternElement::CharacterClass(CharacterClass::Letter(true)),
                Quantifier::ExactlyOne,
            )],
        ),
        (
            r"%d+",
            [(
                PatternElement::CharacterClass(CharacterClass::Digit(true)),
                Quantifier::OneOrMany,
            )],
        ),
        (
            r"%D?",
            [(
                PatternElement::CharacterClass(CharacterClass::Digit(false)),
                Quantifier::ZeroOrOne,
            )],
        ),
        (
            r"%8",
            [(PatternElement::Captured(8), Quantifier::ExactlyOne)],
        ),
    ];
    for (re, answer) in cases {
        run(re, &answer, "One lex.");
    }
    // A back-reference is written with the digit alone: `%n` names no class.
    assert_eq!(Err(CompileError::UnsupportedEscape), lex(r"%n8"));
}

#[test]
fn two_lexes() {
    let cases = [
        (
            r"%a%l",
            [
                (
                    PatternElement::CharacterClass(CharacterClass::Letter(true)),
                    Quantifier::ExactlyOne,
                ),
                (
                    PatternElement::CharacterClass(CharacterClass::Lowercase(true)),
                    Quantifier::ExactlyOne,
                ),
            ],
        ),
        (
            r"%d+%D*",
            [
                (
                    PatternElement::CharacterClass(CharacterClass::Digit(true)),
                    Quantifier::OneOrMany,
                ),
                (
                    PatternElement::CharacterClass(CharacterClass::Digit(false)),
                    Quantifier::ZeroOrManyGreedy,
                ),
            ],
        ),
        (
            r"%D?%w-",
            [
                (
                    PatternElement::CharacterClass(CharacterClass::Digit(false)),
                    Quantifier::ZeroOrOne,
                ),
                (
                    PatternElement::CharacterClass(CharacterClass::AlphaNumeric(true)),
                    Quantifier::ZeroOrManyUngreedy,
                ),
            ],
        ),
        (
            r"[%D?%w%-]-%U",
            [
                (
                    PatternElement::CharacterSet(CharacterClass::Union(
                        [
                            CharacterClass::Digit(false),
                            CharacterClass::Literal('?'),
                            CharacterClass::AlphaNumeric(true),
                            CharacterClass::Literal('-'),
                        ]
                        .into(),
                    )),
                    Quantifier::ZeroOrManyUngreedy,
                ),
                (
                    PatternElement::CharacterClass(CharacterClass::Uppercase(false)),
                    Quantifier::ExactlyOne,
                ),
            ],
        ),
        (
            r"%a-%b78",
            [
                (
                    PatternElement::CharacterClass(CharacterClass::Letter(true)),
                    Quantifier::ZeroOrManyUngreedy,
                ),
                (PatternElement::Border('7', '8'), Quantifier::ExactlyOne),
            ],
        ),
    ];
    for (re, answer) in cases {
        run(re, &answer, "Two lexes");
    }
}
