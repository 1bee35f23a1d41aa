use rlp::character_class::CharacterClass::{
    AlphaNumeric, Digit, Hexadecimal, Letter, Literal, Unset,
};
use rlp::code::Code::{Char, Jmp, Match, Save, Split};
use rlp::error::CompileError;
use rlp::regex::compile;
use rlp::Capture;

fn text(m: &rlp::Match, n: usize) -> String {
    match m.capture(n).unwrap() {
        Capture::Value(s) => s.to_string(),
        Capture::Index(i) => format!("@{}", i),
    }
}

fn wholes(pattern: &str, subj: &str) -> Vec<String> {
    compile(pattern)
        .unwrap()
        .match_all(subj)
        .iter()
        .map(|m| text(m, 0))
        .collect()
}

fn groups(pattern: &str, subj: &str, n: usize) -> Vec<String> {
    compile(pattern)
        .unwrap()
        .match_all(subj)
        .iter()
        .map(|m| text(m, n))
        .collect()
}

fn ranges(pattern: &str, subj: &str) -> Vec<Vec<(usize, usize)>> {
    compile(pattern)
        .unwrap()
        .match_all(subj)
        .iter()
        .map(|m| m.captures.iter().map(|r| (r.start, r.end)).collect())
        .collect()
}

fn error(pattern: &str) -> CompileError {
    compile(pattern).map(|_| ()).unwrap_err()
}

#[test]
fn regex_it_works() {
    assert_eq!(
        [
            Save(0),
            Char(Literal('a')),
            Char(Literal('b')),
            Char(Literal('c')),
            Save(1),
            Match
        ]
        .as_slice(),
        compile("abc").unwrap().program().as_slice()
    )
}

#[test]
fn char_classes_with_quantifiers() {
    assert_eq!(
        [
            Save(0),
            Char(Digit(true)),
            Split { x: 1, y: 3 },
            Split { x: 4, y: 6 },
            Char(Letter(true)),
            Jmp(3),
            Split { x: 9, y: 7 },
            Char(Hexadecimal(false)),
            Jmp(6),
            Split { x: 10, y: 11 },
            Char(Unset(vec![AlphaNumeric(true), Literal('_'), Literal('.')])),
            Save(1),
            Match
        ]
        .as_slice(),
        compile("%d+%a*%X-[^%w_%.]?").unwrap().program().as_slice()
    )
}

#[test]
fn groups_become_save_pairs() {
    let re = compile("(a)(b(c))").unwrap();
    assert_eq!(3, re.captures());
    assert_eq!(
        [
            Save(0),
            Save(2),
            Char(Literal('a')),
            Save(3),
            Save(4),
            Char(Literal('b')),
            Save(6),
            Char(Literal('c')),
            Save(7),
            Save(5),
            Save(1),
            Match
        ]
        .as_slice(),
        re.program().as_slice()
    );
}

#[test]
fn anchors_are_stripped() {
    let re = compile("^a$").unwrap();
    assert!(re.anchor_start());
    assert!(re.anchor_end());
    assert_eq!(
        [Save(0), Char(Literal('a')), Save(1), Match].as_slice(),
        re.program().as_slice()
    );
    let re = compile("a^$b").unwrap();
    assert!(!re.anchor_start());
    assert!(!re.anchor_end());
    assert_eq!(7, re.program().len());
    let re = compile("$").unwrap();
    assert!(re.anchor_end());
    assert_eq!(3, re.program().len());
}

#[test]
fn four_digits_find_the_year() {
    assert_eq!(vec!["2024"], wholes("%d%d%d%d", "2024-01-29"));
}

#[test]
fn two_digits_find_four_pairs() {
    assert_eq!(vec!["20", "24", "01", "29"], wholes("%d%d", "2024-01-29"));
}

#[test]
fn alphanumeric_run_with_ampersand() {
    // `_` is no alphanumeric character: the first run ends before it.
    assert_eq!(vec!["bab", "ghi"], wholes("%w+&?", "bab__&&&ghi"));
    assert_eq!(vec!["bab&", "ghi"], wholes("%w+&?", "bab&&&ghi"));
}

#[test]
fn lazy_body_of_a_comment() {
    let subj = "some code then /* comment */ tail";
    assert_eq!(vec!["/* comment */"], wholes("/%*(.-)%*/", subj));
    assert_eq!(vec![" comment "], groups("/%*(.-)%*/", subj, 1));
}

#[test]
fn names_between_percent_signs() {
    let subj = "Hello, %global_name%! %var_1% = %var% 127%";
    assert_eq!(
        vec!["global_name", "var_1", "var"],
        groups("%%(%S[^%%]+)%%", subj, 1)
    );
}

#[test]
fn uppercase_word_between_frontiers() {
    let subj = "маМА мЫЛа МЫла РАМУ";
    assert_eq!(vec!["РАМУ"], wholes("%f[%a]%u+%f[%A]", subj));
    assert_eq!(vec![vec![(27, 35)]], ranges("%f[%a]%u+%f[%A]", subj));
}

#[test]
fn empty_pattern_matches_nothing_at_each_position() {
    assert_eq!(vec!["@0", "@1", "@2"], wholes("", "abc"));
    assert_eq!(Vec::<String>::new(), wholes("", ""));
}

#[test]
fn empty_subject_yields_nothing() {
    assert_eq!(Vec::<String>::new(), wholes("%d", ""));
    assert_eq!(Vec::<String>::new(), wholes("a*", ""));
    assert!(compile("%d").unwrap().match_one("").is_none());
}

#[test]
fn backreference_to_open_group_fails() {
    assert_eq!(Vec::<String>::new(), wholes("(a%1)", "aa"));
    assert_eq!(Vec::<String>::new(), wholes("%1(a)", "aa"));
    assert_eq!(Vec::<String>::new(), wholes("(a)%2(b)", "aab"));
}

#[test]
fn backreference_reads_the_group_again() {
    assert_eq!(vec!["abab"], wholes("(ab)%1", "xababx"));
    assert_eq!(vec!["aa", "bb"], wholes("(%a)%1", "aabbcd"));
    assert_eq!(Vec::<String>::new(), wholes("(ab)%1", "abac"));
    assert_eq!(vec!["жж"], wholes("(.)%1", "xжжy"));
}

#[test]
fn balanced_brackets_take_the_whole_span() {
    assert_eq!(vec!["(a(b)c)"], wholes("%b()", "(a(b)c)"));
    assert_eq!(vec![vec![(0, 7)]], ranges("%b()", "(a(b)c)"));
    assert_eq!(vec!["(b)"], wholes("%b()", "(a(b)"));
    assert_eq!(Vec::<String>::new(), wholes("%b()", "((("));
}

#[test]
fn optional_frontier() {
    assert_eq!(vec!["x", "x"], wholes("%f[%a]?x", "ax x"));
    assert_eq!(
        [
            Save(0),
            Split { x: 2, y: 3 },
            rlp::code::Code::Frontier(rlp::character_class::CharacterClass::Union(vec![Letter(
                true
            )])),
            Char(Literal('x')),
            Save(1),
            Match
        ]
        .as_slice(),
        compile("%f[%a]?x").unwrap().program().as_slice()
    );
}

#[test]
fn anchored_start_is_tried_once() {
    assert_eq!(vec!["20"], wholes("^%d%d", "2024-01-29"));
    assert_eq!(vec![vec![(0, 2)]], ranges("^%d%d", "2024-01-29"));
    assert_eq!(Vec::<String>::new(), wholes("^%d%d", "x2024"));
}

#[test]
fn anchored_end_ends_at_the_end() {
    assert_eq!(vec!["29"], wholes("%d%d$", "2024-01-29"));
    assert_eq!(vec![vec![(8, 10)]], ranges("%d%d$", "2024-01-29"));
    assert_eq!(Vec::<String>::new(), wholes("%d%d$", "2024-01-29 "));
    assert_eq!(vec!["ж"], wholes(".$", "дж"));
    assert_eq!(vec![vec![(2, 4)]], ranges(".$", "дж"));
}

#[test]
fn matches_do_not_overlap() {
    let found = ranges("%a+", "ab cd é f");
    assert_eq!(
        vec![vec![(0, 2)], vec![(3, 5)], vec![(6, 8)], vec![(9, 10)]],
        found
    );
    for pair in found.windows(2) {
        assert!(pair[0][0].1 <= pair[1][0].0);
    }
    assert_eq!(vec!["aa", "@2", "a"], wholes("a*", "aaba"));
}

#[test]
fn ranges_lie_on_character_boundaries() {
    let subj = "aé漢😀b";
    for m in compile("(.)(.?)").unwrap().match_all(subj).iter() {
        for r in m.captures.iter() {
            assert!(subj.is_char_boundary(r.start));
            assert!(subj.is_char_boundary(r.end));
        }
    }
    assert_eq!(
        vec![
            vec![(0, 3), (0, 1), (1, 3)],
            vec![(3, 10), (3, 6), (6, 10)],
            vec![(10, 11), (10, 11), (11, 11)]
        ],
        ranges("(.)(.?)", subj)
    );
}

#[test]
fn captures_are_in_order() {
    for m in compile("(%a*)(%d*)()").unwrap().match_all("ab12 c 3").iter() {
        assert_eq!(4, m.captures.len());
        for r in m.captures.iter() {
            assert!(m.captures[0].start <= r.start);
            assert!(r.start <= r.end);
            assert!(r.end <= m.captures[0].end);
        }
    }
    assert_eq!(
        vec![(0, 4), (0, 2), (2, 4), (4, 4)],
        ranges("(%a*)(%d*)()", "ab12 c 3")[0]
    );
}

#[test]
fn two_searches_find_the_same() {
    let subj = "key = value, other=7";
    let first = ranges("(%w+)%s*=%s*(%w+)", subj);
    let second = ranges("(%w+)%s*=%s*(%w+)", subj);
    assert_eq!(first, second);
    assert_eq!(
        vec![
            vec![(0, 11), (0, 3), (6, 11)],
            vec![(13, 20), (13, 18), (19, 20)]
        ],
        first
    );
}

#[test]
fn greedy_and_lazy() {
    assert_eq!(vec!["<a><b>"], wholes("<.*>", "<a><b>"));
    assert_eq!(vec!["<a>", "<b>"], wholes("<.->", "<a><b>"));
    assert_eq!(vec!["x123"], wholes("x%d*", "x123"));
    assert_eq!(vec!["x"], wholes("x%d-", "x123"));
    // A greedy match need not reach as far as the lazy one: what follows
    // decides where each of them ends.
    assert_eq!(vec!["(()"], wholes(".*%b()", "(())"));
    assert_eq!(vec!["(())"], wholes(".-%b()", "(())"));
}

#[test]
fn match_one_is_the_first_match() {
    let re = compile("%d+").unwrap();
    let m = re.match_one("ab 12 345").unwrap();
    assert_eq!("12", text(&m, 0));
    assert_eq!("ab 12 345", m.subj);
    assert!(re.match_one("abc").is_none());
}

#[test]
fn position_captures() {
    let re = compile("()a()").unwrap();
    let found = re.match_all("xa");
    assert_eq!(1, found.len());
    assert_eq!("a", text(&found[0], 0));
    assert_eq!("@1", text(&found[0], 1));
    assert_eq!("@2", text(&found[0], 2));
    assert!(found[0].capture(3).is_none());
    let all = found[0].captures();
    assert_eq!(3, all.len());
    assert!(matches!(all[0], Capture::Value("a")));
    assert!(matches!(all[1], Capture::Index(1)));
    assert!(matches!(found[0].captures_iter()[2], Capture::Index(2)));
}

#[test]
fn every_error_has_its_pattern() {
    assert_eq!(CompileError::UnsupportedEscape, error("%q"));
    assert_eq!(CompileError::UnsupportedEscape, error("%0"));
    assert_eq!(CompileError::UnsupportedEscape, error("[%q]"));
    assert_eq!(CompileError::EmptyEscape, error("abc%"));
    assert_eq!(CompileError::EmptyEscape, error("[a%"));
    assert_eq!(CompileError::EmptyEscape, error("%$"));
    assert_eq!(CompileError::TooManyCaptures, error("()()()()()()()()()()"));
    assert_eq!(CompileError::UnmatchedClose, error("a)"));
    assert_eq!(CompileError::UnterminatedGroup, error("(a"));
    assert_eq!(CompileError::UnterminatedSet, error("[abc"));
    assert_eq!(CompileError::UnterminatedSet, error("%f[abc"));
    assert_eq!(CompileError::MalformedBorder, error("%bxx"));
    assert_eq!(CompileError::MalformedBorder, error("%bx"));
    assert_eq!(CompileError::MalformedFrontier, error("%fa"));
    assert_eq!(CompileError::MalformedFrontier, error("%f"));
    assert_eq!(CompileError::StrayQuantifier, error("(*)"));
    assert_eq!(CompileError::StrayQuantifier, error("(a)+"));
    assert_eq!(CompileError::StrayQuantifier, error("(a)%1*"));
    assert_eq!(CompileError::StrayQuantifier, error("%b()?"));
    assert_eq!(CompileError::StrayQuantifier, error("%f[a]-"));
    assert_eq!(CompileError::StrayQuantifier, error("%f[a]*"));
    assert_eq!(CompileError::StrayQuantifier, error("%f[a]+"));
    assert!(compile("%f[a]?").is_ok());
    assert!(compile("()()()()()()()()()").is_ok());
}
