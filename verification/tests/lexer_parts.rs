use rlp::character_class::CharacterClass;
use rlp::error::CompileError;
use rlp::input::chars_of;
use rlp::lexer::{
    char_to_class, lex, lex_chars, make_character_set, next_token, to_character_set,
    to_quantifier, Groups, PatternElement, Quantifier,
};

#[test]
fn class_letters() {
    assert_eq!(Ok(CharacterClass::AlphaNumeric(true)), char_to_class('w'));
    assert_eq!(Ok(CharacterClass::AlphaNumeric(false)), char_to_class('W'));
    assert_eq!(Ok(CharacterClass::Letter(true)), char_to_class('a'));
    assert_eq!(Ok(CharacterClass::Letter(false)), char_to_class('A'));
    assert_eq!(Ok(CharacterClass::ControlChar(true)), char_to_class('c'));
    assert_eq!(Ok(CharacterClass::ControlChar(false)), char_to_class('C'));
    assert_eq!(Ok(CharacterClass::Digit(true)), char_to_class('d'));
    assert_eq!(Ok(CharacterClass::Digit(false)), char_to_class('D'));
    assert_eq!(Ok(CharacterClass::Printable(true)), char_to_class('g'));
    assert_eq!(Ok(CharacterClass::Printable(false)), char_to_class('G'));
    assert_eq!(Ok(CharacterClass::Lowercase(true)), char_to_class('l'));
    assert_eq!(Ok(CharacterClass::Lowercase(false)), char_to_class('L'));
    assert_eq!(Ok(CharacterClass::Punctuation(true)), char_to_class('p'));
    assert_eq!(Ok(CharacterClass::Punctuation(false)), char_to_class('P'));
    assert_eq!(Ok(CharacterClass::WhiteSpace(true)), char_to_class('s'));
    assert_eq!(Ok(CharacterClass::WhiteSpace(false)), char_to_class('S'));
    assert_eq!(Ok(CharacterClass::Uppercase(true)), char_to_class('u'));
    assert_eq!(Ok(CharacterClass::Uppercase(false)), char_to_class('U'));
    assert_eq!(Ok(CharacterClass::Hexadecimal(true)), char_to_class('x'));
    assert_eq!(Ok(CharacterClass::Hexadecimal(false)), char_to_class('X'));
}

#[test]
fn escaped_characters() {
    assert_eq!(Ok(CharacterClass::Literal('%')), char_to_class('%'));
    assert_eq!(Ok(CharacterClass::Literal('.')), char_to_class('.'));
    assert_eq!(Ok(CharacterClass::Literal(' ')), char_to_class(' '));
    assert_eq!(Err(CompileError::UnsupportedEscape), char_to_class('q'));
    assert_eq!(Err(CompileError::UnsupportedEscape), char_to_class('Q'));
    assert_eq!(Err(CompileError::UnsupportedEscape), char_to_class('7'));
    assert_eq!(Err(CompileError::UnsupportedEscape), char_to_class('é'));
}

#[test]
fn quantifier_characters() {
    assert_eq!(Some(Quantifier::ZeroOrManyGreedy), to_quantifier('*'));
    assert_eq!(Some(Quantifier::OneOrMany), to_quantifier('+'));
    assert_eq!(Some(Quantifier::ZeroOrManyUngreedy), to_quantifier('-'));
    assert_eq!(Some(Quantifier::ZeroOrOne), to_quantifier('?'));
    assert_eq!(None, to_quantifier('a'));
    assert_eq!(None, to_quantifier('%'));
}

#[test]
fn members_of_a_set() {
    let re = chars_of("[a-cx%d-]z");
    assert_eq!(
        Ok((
            vec![
                CharacterClass::Range('a', 'c'),
                CharacterClass::Literal('x'),
                CharacterClass::Digit(true),
                CharacterClass::Literal('-'),
            ],
            9
        )),
        to_character_set(&re, 1)
    );
    assert_eq!(Ok((vec![], 1)), to_character_set(&chars_of("]"), 0));
    assert_eq!(
        Ok((vec![CharacterClass::Literal('a'), CharacterClass::Literal('-')], 3)),
        to_character_set(&chars_of("a-]"), 0)
    );
    assert_eq!(
        Ok((vec![CharacterClass::Literal('-'), CharacterClass::Literal('a')], 3)),
        to_character_set(&chars_of("-a]"), 0)
    );
    assert_eq!(
        Ok((
            vec![
                CharacterClass::Range('a', 'b'),
                CharacterClass::Literal('-'),
                CharacterClass::Literal('c')
            ],
            6
        )),
        to_character_set(&chars_of("a-b-c]"), 0)
    );
    assert_eq!(
        Err(CompileError::UnterminatedSet),
        to_character_set(&chars_of("abc"), 0)
    );
    assert_eq!(
        Err(CompileError::UnterminatedSet),
        to_character_set(&chars_of("a-"), 0)
    );
    assert_eq!(
        Err(CompileError::UnterminatedSet),
        to_character_set(&chars_of("a]"), 2)
    );
    assert_eq!(
        Err(CompileError::EmptyEscape),
        to_character_set(&chars_of("a%"), 0)
    );
    assert_eq!(
        Err(CompileError::UnsupportedEscape),
        to_character_set(&chars_of("%b]"), 0)
    );
}

#[test]
fn sets_and_complements() {
    assert_eq!(
        Ok((CharacterClass::Union(vec![CharacterClass::Literal('a')]), 2)),
        make_character_set(&chars_of("a]"), 0)
    );
    assert_eq!(
        Ok((CharacterClass::Unset(vec![CharacterClass::Literal('a')]), 3)),
        make_character_set(&chars_of("^a]"), 0)
    );
    assert_eq!(
        Ok((
            CharacterClass::Union(vec![
                CharacterClass::Literal('a'),
                CharacterClass::Literal('^')
            ]),
            3
        )),
        make_character_set(&chars_of("a^]"), 0)
    );
    assert_eq!(
        Err(CompileError::UnterminatedSet),
        make_character_set(&chars_of("^"), 0)
    );
}

#[test]
fn tokens_one_by_one() {
    let re = chars_of("(a*)%1");
    let mut groups = Groups::new();
    assert_eq!(
        Ok((PatternElement::SaveOpen(1), Quantifier::ExactlyOne, 1)),
        next_token(&re, 0, &mut groups)
    );
    assert_eq!((1, vec![1]), (groups.count, groups.open.clone()));
    assert_eq!(
        Ok((PatternElement::Literal('a'), Quantifier::ZeroOrManyGreedy, 3)),
        next_token(&re, 1, &mut groups)
    );
    assert_eq!(
        Ok((PatternElement::SaveClose(1), Quantifier::ExactlyOne, 4)),
        next_token(&re, 3, &mut groups)
    );
    assert_eq!((1, vec![]), (groups.count, groups.open.clone()));
    assert_eq!(
        Ok((PatternElement::Captured(1), Quantifier::ExactlyOne, 6)),
        next_token(&re, 4, &mut groups)
    );
    assert_eq!(
        Err(CompileError::UnmatchedClose),
        next_token(&re, 3, &mut groups)
    );
    assert_eq!((1, vec![]), (groups.count, groups.open.clone()));
    let re = chars_of("(+");
    assert_eq!(
        Err(CompileError::StrayQuantifier),
        next_token(&re, 0, &mut groups)
    );
    assert_eq!((2, vec![2]), (groups.count, groups.open.clone()));
}

#[test]
fn elements_of_every_kind() {
    assert_eq!(
        Ok(vec![
            (PatternElement::AnyChar, Quantifier::ZeroOrOne),
            (
                PatternElement::CharacterSet(CharacterClass::Unset(vec![
                    CharacterClass::Range('0', '9')
                ])),
                Quantifier::OneOrMany
            ),
            (PatternElement::SaveOpen(1), Quantifier::ExactlyOne),
            (PatternElement::SaveOpen(2), Quantifier::ExactlyOne),
            (PatternElement::SaveClose(2), Quantifier::ExactlyOne),
            (PatternElement::Border('<', '>'), Quantifier::ExactlyOne),
            (PatternElement::SaveClose(1), Quantifier::ExactlyOne),
            (PatternElement::Captured(2), Quantifier::ExactlyOne),
            (
                PatternElement::Frontier(CharacterClass::Union(vec![CharacterClass::Letter(
                    true
                )])),
                Quantifier::ExactlyOne
            ),
            (
                PatternElement::CharacterClass(CharacterClass::Literal('%')),
                Quantifier::ZeroOrManyUngreedy
            ),
            (PatternElement::Literal('x'), Quantifier::ZeroOrManyGreedy),
        ]),
        lex(".?[^0-9]+(()%b<>)%2%f[%a]%%-x*")
    );
}

#[test]
fn quantifier_characters_that_stand_for_themselves() {
    assert_eq!(
        Ok(vec![
            (PatternElement::Literal('*'), Quantifier::ExactlyOne),
            (PatternElement::Literal('a'), Quantifier::ZeroOrManyGreedy),
            (PatternElement::Literal('*'), Quantifier::ExactlyOne),
            (PatternElement::Literal('^'), Quantifier::ExactlyOne),
            (PatternElement::Literal('$'), Quantifier::ZeroOrOne),
            (PatternElement::Literal(']'), Quantifier::ExactlyOne),
        ]),
        lex("*a**^$?]")
    );
    assert_eq!(Ok(vec![]), lex(""));
}

#[test]
fn groups_are_numbered_as_they_open() {
    let found = lex_chars(&chars_of("((a)(b))(c)")).unwrap();
    let shape: Vec<String> = found
        .iter()
        .map(|(e, _)| match e {
            PatternElement::SaveOpen(n) => format!("({}", n),
            PatternElement::SaveClose(n) => format!("{})", n),
            PatternElement::Literal(c) => c.to_string(),
            _ => String::new(),
        })
        .collect();
    assert_eq!(
        vec!["(1", "(2", "a", "2)", "(3", "b", "3)", "1)", "(4", "c", "4)"],
        shape
    );
}

#[test]
fn first_error_wins() {
    assert_eq!(Err(CompileError::UnmatchedClose), lex("a)(%"));
    assert_eq!(Err(CompileError::EmptyEscape), lex("(a%"));
    assert_eq!(Err(CompileError::UnterminatedGroup), lex("(a)(b"));
    assert_eq!(Err(CompileError::TooManyCaptures), lex("(((((((((("));
    assert_eq!(Err(CompileError::UnterminatedGroup), lex("((((((((("));
}
