use rlp::character_class::CharacterClass;
use rlp::code::Code;
use rlp::context::Context;
use rlp::input::{char_at, char_width, chars_of, Input};
use rlp::recursive::{at_frontier, balanced_end, captured_end, exec};
use rlp::regex::compile;

#[test]
fn char_widths() {
    assert_eq!(1, char_width('a'));
    assert_eq!(1, char_width('\u{7f}'));
    assert_eq!(2, char_width('\u{80}'));
    assert_eq!(2, char_width('é'));
    assert_eq!(2, char_width('\u{7ff}'));
    assert_eq!(3, char_width('\u{800}'));
    assert_eq!(3, char_width('漢'));
    assert_eq!(3, char_width('\u{ffff}'));
    assert_eq!(4, char_width('\u{10000}'));
    assert_eq!(4, char_width('😀'));
    for c in ['a', 'é', '漢', '😀'] {
        assert_eq!(c.len_utf8(), char_width(c));
    }
}

#[test]
fn chars_of_a_string() {
    assert_eq!(vec!['a', 'é', '漢'], chars_of("aé漢"));
    assert_eq!(Vec::<char>::new(), chars_of(""));
    assert_eq!('é', char_at(&chars_of("aé漢"), 1));
}

#[test]
fn input_indexes_code_points() {
    let input = Input::new("aé漢😀b");
    assert_eq!(5, input.len());
    assert_eq!(Some('a'), input.get_char(0));
    assert_eq!(Some('漢'), input.get_char(2));
    assert_eq!(Some('b'), input.get_char(4));
    assert_eq!(None, input.get_char(5));
    assert_eq!(Some(0), input.get_byte_index(0));
    assert_eq!(Some(1), input.get_byte_index(1));
    assert_eq!(Some(3), input.get_byte_index(2));
    assert_eq!(Some(6), input.get_byte_index(3));
    assert_eq!(Some(10), input.get_byte_index(4));
    assert_eq!(Some(11), input.get_byte_index(5));
    assert_eq!(None, input.get_byte_index(6));
}

#[test]
fn input_of_the_empty_string() {
    let input = Input::new("");
    assert_eq!(0, input.len());
    assert_eq!(None, input.get_char(0));
    assert_eq!(Some(0), input.get_byte_index(0));
    assert_eq!(None, input.get_byte_index(1));
}

#[test]
fn context_starts_empty() {
    let re = compile("(a)").unwrap();
    let ctx = Context::new(re.program().as_slice(), Input::new("xa"), re.captures());
    assert_eq!(0, ctx.program_counter);
    assert_eq!(0, ctx.subj_pointer);
    assert_eq!(vec![None; 4], ctx.saved);
    assert!(!ctx.exhausted());
    assert_eq!(None, ctx.saved_range(0));
    assert_eq!(None, ctx.captured_range(1));
    assert_eq!(None, ctx.saved_range(2));
    let ctx = Context::new(re.program().as_slice(), Input::new(""), re.captures());
    assert!(ctx.exhausted());
}

#[test]
fn exec_accepts_and_records() {
    let re = compile("(é+)b").unwrap();
    let mut ctx = Context::new(re.program().as_slice(), Input::new("aééb"), re.captures());
    assert!(!exec(&mut ctx));
    assert_eq!(0, ctx.program_counter);
    assert_eq!(0, ctx.subj_pointer);
    assert_eq!(vec![None; 4], ctx.saved);
    ctx.restart(1);
    assert!(exec(&mut ctx));
    assert_eq!(re.program().len() - 1, ctx.program_counter);
    assert_eq!(4, ctx.subj_pointer);
    assert_eq!(vec![Some(1), Some(4), Some(1), Some(3)], ctx.saved);
    assert!(ctx.exhausted());
    assert_eq!(Some(1..4), ctx.saved_range(0));
    assert_eq!(Some(1..3), ctx.saved_range(1));
    assert_eq!(Some(1..6), ctx.captured_range(0));
    assert_eq!(Some(1..5), ctx.captured_range(1));
    assert_eq!(None, ctx.captured_range(2));
    assert_eq!(vec![1..6, 1..5], ctx.captured_ranges());
    ctx.restart(2);
    assert_eq!(0, ctx.program_counter);
    assert_eq!(2, ctx.subj_pointer);
    assert_eq!(vec![None; 4], ctx.saved);
}

#[test]
fn exec_tries_the_first_branch_first() {
    let re = compile("a*").unwrap();
    let mut ctx = Context::new(re.program().as_slice(), Input::new("aab"), re.captures());
    assert!(exec(&mut ctx));
    assert_eq!(2, ctx.subj_pointer);
    let re = compile("a-").unwrap();
    let mut ctx = Context::new(re.program().as_slice(), Input::new("aab"), re.captures());
    assert!(exec(&mut ctx));
    assert_eq!(0, ctx.subj_pointer);
    let re = compile("a*ab").unwrap();
    let mut ctx = Context::new(re.program().as_slice(), Input::new("aab"), re.captures());
    assert!(exec(&mut ctx));
    assert_eq!(3, ctx.subj_pointer);
}

#[test]
fn exec_from_the_middle_of_a_program() {
    let program = vec![
        Code::Save(0),
        Code::Char(CharacterClass::Literal('a')),
        Code::Char(CharacterClass::Literal('b')),
        Code::Save(1),
        Code::Match,
    ];
    let mut ctx = Context::new(program.as_slice(), Input::new("ab"), 0);
    ctx.program_counter = 2;
    ctx.subj_pointer = 1;
    assert!(exec(&mut ctx));
    assert_eq!(vec![None, Some(2)], ctx.saved);
    assert_eq!(4, ctx.program_counter);
}

#[test]
fn exec_of_a_program_without_saves() {
    // a(b|c)*d, written by hand: a back jump after each of `b` and `c`.
    let program = vec![
        Code::Char(CharacterClass::Literal('a')),
        Code::Split { x: 2, y: 7 },
        Code::Split { x: 3, y: 5 },
        Code::Char(CharacterClass::Literal('b')),
        Code::Jmp(1),
        Code::Char(CharacterClass::Literal('c')),
        Code::Jmp(1),
        Code::Char(CharacterClass::Literal('d')),
        Code::Match,
    ];
    let mut ctx = Context::new(program.as_slice(), Input::new("abccbd!"), 0);
    assert!(exec(&mut ctx));
    assert_eq!(6, ctx.subj_pointer);
    assert_eq!(8, ctx.program_counter);
    assert_eq!(vec![None, None], ctx.saved);
    let mut ctx = Context::new(program.as_slice(), Input::new("abcx"), 0);
    assert!(!exec(&mut ctx));
    assert_eq!((0, 0), (ctx.program_counter, ctx.subj_pointer));
}

#[test]
fn captured_end_compares_code_points() {
    let input = Input::new("abcabx");
    let saved = vec![None, None, Some(0), Some(2), Some(2), None];
    assert_eq!(Some(5), captured_end(&input, &saved, 1, 3));
    assert_eq!(Some(2), captured_end(&input, &saved, 1, 0));
    assert_eq!(None, captured_end(&input, &saved, 1, 1));
    assert_eq!(None, captured_end(&input, &saved, 1, 5));
    assert_eq!(None, captured_end(&input, &saved, 0, 0));
    assert_eq!(None, captured_end(&input, &saved, 2, 0));
    assert_eq!(None, captured_end(&input, &saved, 3, 0));
    let reversed = vec![Some(2), Some(1)];
    assert_eq!(None, captured_end(&input, &reversed, 0, 0));
    let empty = vec![Some(6), Some(6)];
    assert_eq!(Some(6), captured_end(&input, &empty, 0, 6));
}

#[test]
fn balanced_end_counts_brackets() {
    let input = Input::new("x(a(b)c)d)");
    assert_eq!(Some(8), balanced_end(&input, 1, '(', ')'));
    assert_eq!(Some(6), balanced_end(&input, 3, '(', ')'));
    assert_eq!(None, balanced_end(&input, 0, '(', ')'));
    assert_eq!(None, balanced_end(&input, 10, '(', ')'));
    assert_eq!(None, balanced_end(&Input::new("(()"), 0, '(', ')'));
    assert_eq!(None, balanced_end(&Input::new("aaa"), 0, 'a', 'a'));
    assert_eq!(Some(2), balanced_end(&Input::new("[]"), 0, '[', ']'));
}

#[test]
fn frontier_looks_at_both_sides() {
    let letters = CharacterClass::Letter(true);
    let input = Input::new("ab cd");
    assert!(at_frontier(&letters, &input, 0));
    assert!(!at_frontier(&letters, &input, 1));
    assert!(!at_frontier(&letters, &input, 2));
    assert!(at_frontier(&letters, &input, 3));
    assert!(!at_frontier(&letters, &input, 5));
    let others = CharacterClass::Letter(false);
    assert!(at_frontier(&others, &input, 2));
    assert!(at_frontier(&others, &input, 5));
    assert!(!at_frontier(&others, &input, 0));
}
