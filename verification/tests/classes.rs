use rlp::character_class::{any_matched, CharacterClass};
use rlp::unicode::{
    is_ascii_control, is_ascii_graphic, is_ascii_hexdigit, is_ascii_lowercase,
    is_ascii_punctuation, is_lowercase_fixed, is_uppercase_fixed,
};

fn accepted(class: &CharacterClass, among: &str) -> String {
    among.chars().filter(|c| class.is_matched(c)).collect()
}

const SAMPLE: &str = "aZ5_ \t-é漢Ж٣\u{1}~";

#[test]
fn literal_any_and_range() {
    assert_eq!("a", accepted(&CharacterClass::Literal('a'), SAMPLE));
    assert_eq!(SAMPLE, accepted(&CharacterClass::Any, SAMPLE));
    assert_eq!("aZ5_", accepted(&CharacterClass::Range('0', 'z'), SAMPLE));
    assert_eq!("5", accepted(&CharacterClass::Range('5', '5'), SAMPLE));
    assert_eq!("", accepted(&CharacterClass::Range('z', 'a'), SAMPLE));
}

#[test]
fn named_classes() {
    assert_eq!("aZ5é漢Ж٣", accepted(&CharacterClass::AlphaNumeric(true), SAMPLE));
    assert_eq!("_ \t-\u{1}~", accepted(&CharacterClass::AlphaNumeric(false), SAMPLE));
    assert_eq!("aZé漢Ж", accepted(&CharacterClass::Letter(true), SAMPLE));
    assert_eq!("5_ \t-٣\u{1}~", accepted(&CharacterClass::Letter(false), SAMPLE));
    assert_eq!("\t\u{1}", accepted(&CharacterClass::ControlChar(true), SAMPLE));
    assert_eq!("aZ5_ -é漢Ж٣~", accepted(&CharacterClass::ControlChar(false), SAMPLE));
    assert_eq!("5٣", accepted(&CharacterClass::Digit(true), SAMPLE));
    assert_eq!("aZ_ \t-é漢Ж\u{1}~", accepted(&CharacterClass::Digit(false), SAMPLE));
    assert_eq!("aZ5_-~", accepted(&CharacterClass::Printable(true), SAMPLE));
    assert_eq!(" \té漢Ж٣\u{1}", accepted(&CharacterClass::Printable(false), SAMPLE));
    assert_eq!("_-~", accepted(&CharacterClass::Punctuation(true), SAMPLE));
    assert_eq!("aZ5 \té漢Ж٣\u{1}", accepted(&CharacterClass::Punctuation(false), SAMPLE));
    assert_eq!(" \t", accepted(&CharacterClass::WhiteSpace(true), SAMPLE));
    assert_eq!("aZ5_-é漢Ж٣\u{1}~", accepted(&CharacterClass::WhiteSpace(false), SAMPLE));
    assert_eq!("a5", accepted(&CharacterClass::Hexadecimal(true), SAMPLE));
    assert_eq!("Z_ \t-é漢Ж٣\u{1}~", accepted(&CharacterClass::Hexadecimal(false), SAMPLE));
}

#[test]
fn case_classes_ask_whether_the_mapping_moves() {
    // What has no other case counts as both lower and upper case.
    assert_eq!("a5_ \t-é漢٣\u{1}~", accepted(&CharacterClass::Lowercase(true), SAMPLE));
    assert_eq!("ZЖ", accepted(&CharacterClass::Lowercase(false), SAMPLE));
    assert_eq!("Z5_ \t-漢Ж٣\u{1}~", accepted(&CharacterClass::Uppercase(true), SAMPLE));
    assert_eq!("aé", accepted(&CharacterClass::Uppercase(false), SAMPLE));
    assert!(is_lowercase_fixed('a'));
    assert!(!is_lowercase_fixed('A'));
    assert!(is_uppercase_fixed('A'));
    assert!(!is_uppercase_fixed('a'));
    assert!(!is_uppercase_fixed('ß'));
    assert!(is_lowercase_fixed('ß'));
}

#[test]
fn sets_and_their_complements() {
    let members = || {
        vec![
            CharacterClass::Digit(true),
            CharacterClass::Literal('_'),
            CharacterClass::Range('a', 'f'),
        ]
    };
    assert_eq!("a5_٣", accepted(&CharacterClass::Union(members()), SAMPLE));
    assert_eq!("Z \t-é漢Ж\u{1}~", accepted(&CharacterClass::Unset(members()), SAMPLE));
    assert_eq!("", accepted(&CharacterClass::Union(vec![]), SAMPLE));
    assert_eq!(SAMPLE, accepted(&CharacterClass::Unset(vec![]), SAMPLE));
    let nested = CharacterClass::Union(vec![CharacterClass::Unset(members())]);
    assert_eq!("Z \t-é漢Ж\u{1}~", accepted(&nested, SAMPLE));
    assert!(any_matched(&members(), &'7'));
    assert!(!any_matched(&members(), &'g'));
}

#[test]
fn ascii_predicates_agree_with_std() {
    for code in 0u32..0x200 {
        let c = char::from_u32(code).unwrap();
        assert_eq!(c.is_ascii_control(), is_ascii_control(c), "{:?}", c);
        assert_eq!(c.is_ascii_graphic(), is_ascii_graphic(c), "{:?}", c);
        assert_eq!(c.is_ascii_punctuation(), is_ascii_punctuation(c), "{:?}", c);
        assert_eq!(c.is_ascii_hexdigit(), is_ascii_hexdigit(c), "{:?}", c);
        assert_eq!(c.is_ascii_lowercase(), is_ascii_lowercase(c), "{:?}", c);
    }
}
