use rlp::parse::{
    duplicate_all, make_group, make_one_or_more, make_sure_exactly_one_and_update, parse,
    push_literal, PatternElement, PatternObject, Quantifier,
};

#[test]
fn parse_it_works() {
    let regex = r"a?(b.*c)+d";
    let result = parse(regex);
    assert_eq!(4, result.len());
    assert_eq!(
        &PatternElement {
            quantifier: Quantifier::ZeroOrOne,
            object: PatternObject::Literal('a')
        },
        result.first().unwrap()
    );
    assert_eq!(
        &PatternElement {
            quantifier: Quantifier::ExactlyOne,
            object: PatternObject::Literal('d')
        },
        result.last().unwrap()
    );
}

fn literal(c: char, quantifier: Quantifier) -> PatternElement {
    PatternElement {
        quantifier,
        object: PatternObject::Literal(c),
    }
}

#[test]
fn parse_builds_groups() {
    assert_eq!(
        vec![
            literal('a', Quantifier::ZeroOrOne),
            PatternElement {
                quantifier: Quantifier::ExactlyOne,
                object: PatternObject::Group(vec![
                    literal('b', Quantifier::ExactlyOne),
                    PatternElement {
                        quantifier: Quantifier::ZeroOrMore,
                        object: PatternObject::Wildcard
                    },
                    literal('c', Quantifier::ExactlyOne),
                ])
            },
            PatternElement {
                quantifier: Quantifier::ZeroOrMore,
                object: PatternObject::Group(vec![
                    literal('b', Quantifier::ExactlyOne),
                    PatternElement {
                        quantifier: Quantifier::ZeroOrMore,
                        object: PatternObject::Wildcard
                    },
                    literal('c', Quantifier::ExactlyOne),
                ])
            },
            literal('d', Quantifier::ExactlyOne),
        ],
        parse(r"a?(b.*c)+d")
    );
    assert_eq!(Vec::<PatternElement>::new(), parse(""));
}

#[test]
fn parse_takes_escaped_characters_literally() {
    assert_eq!(
        vec![
            literal('(', Quantifier::ExactlyOne),
            literal('*', Quantifier::ZeroOrMore),
            literal('\\', Quantifier::ExactlyOne),
            literal('a', Quantifier::ExactlyOne),
        ],
        parse(r"\(\**\\\a")
    );
}

#[test]
fn quantifiers_need_one_plain_element() {
    let mut stack = vec![vec![literal('a', Quantifier::ExactlyOne)]];
    assert_eq!(
        Ok(()),
        make_sure_exactly_one_and_update(&mut stack, Quantifier::ZeroOrOne)
    );
    assert_eq!(vec![vec![literal('a', Quantifier::ZeroOrOne)]], stack);
    assert_eq!(
        Err("Too many quantifiers in the row".to_owned()),
        make_sure_exactly_one_and_update(&mut stack, Quantifier::ZeroOrMore)
    );
    assert_eq!(vec![vec![literal('a', Quantifier::ZeroOrOne)]], stack);
    assert_eq!(
        Err("Too many quantifiers in the row".to_owned()),
        make_one_or_more(&mut stack)
    );
    let mut stack = vec![vec![literal('a', Quantifier::ExactlyOne)], vec![]];
    assert_eq!(
        Err("No element for quantifier".to_owned()),
        make_sure_exactly_one_and_update(&mut stack, Quantifier::ZeroOrOne)
    );
    assert_eq!(
        Err("No element fo quantifier '+'".to_owned()),
        make_one_or_more(&mut stack)
    );
    assert_eq!(
        vec![vec![literal('a', Quantifier::ExactlyOne)], vec![]],
        stack
    );
}

#[test]
fn plus_repeats_the_element() {
    let mut stack = vec![vec![], vec![literal('a', Quantifier::ExactlyOne)]];
    assert_eq!(Ok(()), make_one_or_more(&mut stack));
    assert_eq!(
        vec![
            vec![],
            vec![
                literal('a', Quantifier::ExactlyOne),
                literal('a', Quantifier::ZeroOrMore)
            ]
        ],
        stack
    );
}

#[test]
fn groups_close_onto_the_sequence_below() {
    let mut stack = vec![
        vec![literal('a', Quantifier::ExactlyOne)],
        vec![literal('b', Quantifier::ExactlyOne)],
    ];
    assert_eq!(Ok(()), make_group(&mut stack));
    assert_eq!(
        vec![vec![
            literal('a', Quantifier::ExactlyOne),
            PatternElement::new(
                Quantifier::ExactlyOne,
                PatternObject::Group(vec![literal('b', Quantifier::ExactlyOne)])
            )
        ]],
        stack
    );
    assert_eq!(
        Err("Unexpected ')' token.".to_owned()),
        make_group(&mut stack)
    );
    assert_eq!(1, stack.len());
}

#[test]
fn literals_and_copies() {
    let mut states = vec![];
    push_literal(&mut states, 'x');
    push_literal(&mut states, 'é');
    assert_eq!(
        vec![
            literal('x', Quantifier::ExactlyOne),
            literal('é', Quantifier::ExactlyOne)
        ],
        states
    );
    let group = PatternElement::new(Quantifier::ZeroOrOne, PatternObject::Group(states));
    assert_eq!(group, group.duplicate());
    assert_eq!(vec![group.duplicate()], duplicate_all(&vec![group]));
}
