//! The lexer: from the text of a pattern to its elements, each with its
//! quantifier.
//!
//! The grammar is stated as spec functions on the code points of the
//! pattern ([`lex_spec`] and what it is made of); the executable functions
//! are proved to compute them.

use crate::character_class::{models, CharacterClass, ClassModel};
use crate::error::CompileError;
use crate::input::{char_at, chars_of};
use crate::unicode::{alphanumeric, ascii_lowercase, is_ascii_lowercase};
use vstd::prelude::*;

verus! {

/// One element of a pattern.
#[derive(Debug, PartialEq)]
pub enum PatternElement {
    /// `.`
    AnyChar,
    /// A character that stands for itself.
    Literal(char),
    /// `%` and a class letter, or `%` and a character taken literally.
    CharacterClass(CharacterClass),
    /// `[...]`
    CharacterSet(CharacterClass),
    /// `%1` to `%9`: the text of an earlier group.
    Captured(usize),
    /// `%bxy`: a span balanced between `x` and `y`.
    Border(char, char),
    /// `%f[...]`: the place where the set begins to hold.
    Frontier(CharacterClass),
    /// `(`, with the number of the group it opens.
    SaveOpen(usize),
    /// `)`, with the number of the group it closes.
    SaveClose(usize),
}

/// The mathematical value of a [`PatternElement`].
pub ghost enum ElementModel {
    AnyChar,
    Literal(char),
    CharacterClass(ClassModel),
    CharacterSet(ClassModel),
    Captured(usize),
    Border(char, char),
    Frontier(ClassModel),
    SaveOpen(usize),
    SaveClose(usize),
}

impl View for PatternElement {
    type V = ElementModel;

    open spec fn view(&self) -> ElementModel {
        match self {
            PatternElement::AnyChar => ElementModel::AnyChar,
            PatternElement::Literal(c) => ElementModel::Literal(*c),
            PatternElement::CharacterClass(k) => ElementModel::CharacterClass(k@),
            PatternElement::CharacterSet(k) => ElementModel::CharacterSet(k@),
            PatternElement::Captured(n) => ElementModel::Captured(*n),
            PatternElement::Border(x, y) => ElementModel::Border(*x, *y),
            PatternElement::Frontier(k) => ElementModel::Frontier(k@),
            PatternElement::SaveOpen(n) => ElementModel::SaveOpen(*n),
            PatternElement::SaveClose(n) => ElementModel::SaveClose(*n),
        }
    }
}

impl ElementModel {
    /// Whether the element matches exactly one code point, so that it can
    /// be repeated.
    pub open spec fn repeatable(self) -> bool {
        self is AnyChar || self is Literal || self is CharacterClass || self is CharacterSet
    }

    /// Whether the element can carry the quantifier `q`. An element that
    /// matches one code point can carry any. A frontier can be optional; it
    /// cannot be repeated, as a repetition that takes no code point never
    /// ends. Nothing else can carry one.
    pub open spec fn takes(self, q: Quantifier) -> bool {
        self.repeatable() || (self is Frontier && q == Quantifier::ZeroOrOne)
    }
}

/// How often an element may match.
#[derive(Debug, PartialEq, Eq, Clone, Copy)]
pub enum Quantifier {
    ExactlyOne,
    /// `?`
    ZeroOrOne,
    /// `+`
    OneOrMany,
    /// `*`
    ZeroOrManyGreedy,
    /// `-`
    ZeroOrManyUngreedy,
}

/// The models of the lexed pairs in `s`, in the same order.
pub open spec fn token_models(s: Seq<(PatternElement, Quantifier)>) -> Seq<
    (ElementModel, Quantifier),
> {
    Seq::new(s.len(), |i: int| (s[i].0@, s[i].1))
}

/// The groups met so far: how many were opened, and which are still open,
/// the innermost last.
pub struct Groups {
    pub count: usize,
    pub open: Vec<usize>,
}

/// The mathematical value of [`Groups`].
pub ghost struct GroupsModel {
    pub count: usize,
    pub open: Seq<usize>,
}

impl View for Groups {
    type V = GroupsModel;

    open spec fn view(&self) -> GroupsModel {
        GroupsModel { count: self.count, open: self.open@ }
    }
}

/// The most groups a pattern may open.
pub const MAX_CAPTURES: usize = 9;

impl GroupsModel {
    /// No more groups were opened than a pattern may open, and each group
    /// that is open was opened.
    pub open spec fn ok(self) -> bool {
        &&& self.count <= MAX_CAPTURES
        &&& forall|i: int| 0 <= i < self.open.len() ==> 1 <= #[trigger] self.open[i] <= self.count
    }
}

/// The number of groups that `tokens` open: the largest number that a
/// `SaveOpen` among them carries.
pub open spec fn group_count(tokens: Seq<(ElementModel, Quantifier)>) -> usize
    decreases tokens.len(),
{
    if tokens.len() == 0 {
        0
    } else {
        let before = group_count(tokens.drop_last());
        match tokens.last().0 {
            ElementModel::SaveOpen(n) => if n > before {
                n
            } else {
                before
            },
            _ => before,
        }
    }
}

/// What holds of each pair that the lexer yields, where `count` groups are
/// opened in all: the element can carry its quantifier, and a group that
/// is opened or closed is one of the `count`.
pub open spec fn token_ok(t: (ElementModel, Quantifier), count: int) -> bool {
    &&& t.1 != Quantifier::ExactlyOne ==> t.0.takes(t.1)
    &&& t.0 matches ElementModel::SaveOpen(n) ==> 1 <= n <= count
    &&& t.0 matches ElementModel::SaveClose(n) ==> 1 <= n <= count
}

/// Whether some pair of `tokens` closes group `n`.
pub open spec fn closes(tokens: Seq<(ElementModel, Quantifier)>, n: usize) -> bool {
    exists|i: int| 0 <= i < tokens.len() && (#[trigger] tokens[i]).0 == ElementModel::SaveClose(n)
}

/// Whether the pair of index `i` has the number it is due: a group that is
/// opened is numbered one more than the groups opened before it, and a
/// group that is closed is one of those.
pub open spec fn numbered(tokens: Seq<(ElementModel, Quantifier)>, i: int) -> bool {
    let before = group_count(tokens.take(i));
    match tokens[i].0 {
        ElementModel::SaveOpen(n) => n == before + 1,
        ElementModel::SaveClose(n) => 1 <= n <= before,
        _ => true,
    }
}

/// What holds of the pairs of a lexed pattern: there are no more groups
/// than a pattern may have, they are numbered in the order in which they
/// are opened, each is closed, and each element can carry its quantifier.
pub open spec fn tokens_ok(tokens: Seq<(ElementModel, Quantifier)>) -> bool {
    &&& group_count(tokens) <= MAX_CAPTURES
    &&& forall|i: int|
        0 <= i < tokens.len() ==> token_ok(#[trigger] tokens[i], group_count(tokens) as int)
    &&& forall|i: int| 0 <= i < tokens.len() ==> #[trigger] numbered(tokens, i)
    &&& forall|n: usize| 1 <= n <= group_count(tokens) ==> #[trigger] closes(tokens, n)
}

/// The class that `%` and `c` stand for; `None` where `c` is a letter or a
/// digit that names no class.
pub open spec fn escape_class(c: char) -> Option<ClassModel> {
    let positive = ascii_lowercase(c);
    if c == 'w' || c == 'W' {
        Some(ClassModel::AlphaNumeric(positive))
    } else if c == 'a' || c == 'A' {
        Some(ClassModel::Letter(positive))
    } else if c == 'c' || c == 'C' {
        Some(ClassModel::ControlChar(positive))
    } else if c == 'd' || c == 'D' {
        Some(ClassModel::Digit(positive))
    } else if c == 'g' || c == 'G' {
        Some(ClassModel::Printable(positive))
    } else if c == 'l' || c == 'L' {
        Some(ClassModel::Lowercase(positive))
    } else if c == 'p' || c == 'P' {
        Some(ClassModel::Punctuation(positive))
    } else if c == 's' || c == 'S' {
        Some(ClassModel::WhiteSpace(positive))
    } else if c == 'u' || c == 'U' {
        Some(ClassModel::Uppercase(positive))
    } else if c == 'x' || c == 'X' {
        Some(ClassModel::Hexadecimal(positive))
    } else if !alphanumeric(c) {
        Some(ClassModel::Literal(c))
    } else {
        None
    }
}

/// The member of a set that begins at `pos`, and the position after it.
pub open spec fn set_item(re: Seq<char>, pos: int) -> Result<(ClassModel, int), CompileError>
    recommends
        0 <= pos < re.len(),
{
    let c = re[pos];
    if c == '%' {
        if pos + 1 >= re.len() {
            Err(CompileError::EmptyEscape)
        } else {
            match escape_class(re[pos + 1]) {
                Some(k) => Ok((k, pos + 2)),
                None => Err(CompileError::UnsupportedEscape),
            }
        }
    } else if pos + 2 < re.len() && re[pos + 1] == '-' && re[pos + 2] != ']' {
        Ok((ClassModel::Range(c, re[pos + 2]), pos + 3))
    } else {
        Ok((ClassModel::Literal(c), pos + 1))
    }
}

/// `r` with `acc` put in front of the members it holds.
pub open spec fn prepend_items(
    acc: Seq<ClassModel>,
    r: Result<(Seq<ClassModel>, int), CompileError>,
) -> Result<(Seq<ClassModel>, int), CompileError> {
    match r {
        Ok((rest, end)) => Ok((acc + rest, end)),
        Err(e) => Err(e),
    }
}

/// The members of a set from `pos` up to the `]` that closes it, and the
/// position after that `]`.
pub open spec fn set_items(re: Seq<char>, pos: int) -> Result<(Seq<ClassModel>, int), CompileError>
    decreases re.len() - pos,
{
    if pos < 0 || pos >= re.len() {
        Err(CompileError::UnterminatedSet)
    } else if re[pos] == ']' {
        Ok((Seq::empty(), pos + 1))
    } else {
        match set_item(re, pos) {
            Err(e) => Err(e),
            Ok((item, next)) => prepend_items(seq![item], set_items(re, next)),
        }
    }
}

/// The set whose body begins at `pos`, just after `[`: complemented where
/// the body begins with `^`.
pub open spec fn character_set(re: Seq<char>, pos: int) -> Result<(ClassModel, int), CompileError> {
    if 0 <= pos < re.len() && re[pos] == '^' {
        match set_items(re, pos + 1) {
            Ok((items, end)) => Ok((ClassModel::Unset(items), end)),
            Err(e) => Err(e),
        }
    } else {
        match set_items(re, pos) {
            Ok((items, end)) => Ok((ClassModel::Union(items), end)),
            Err(e) => Err(e),
        }
    }
}

/// The quantifier that `c` stands for, if it stands for one.
pub open spec fn quantifier_of(c: char) -> Option<Quantifier> {
    if c == '*' {
        Some(Quantifier::ZeroOrManyGreedy)
    } else if c == '+' {
        Some(Quantifier::OneOrMany)
    } else if c == '-' {
        Some(Quantifier::ZeroOrManyUngreedy)
    } else if c == '?' {
        Some(Quantifier::ZeroOrOne)
    } else {
        None
    }
}

/// What one step of the lexer yields: an element, the position after it and
/// the groups as they then are.
pub type ElementResult = Result<(ElementModel, int, GroupsModel), CompileError>;

/// The element that begins at `pos`.
pub open spec fn element(re: Seq<char>, pos: int, groups: GroupsModel) -> ElementResult
    recommends
        0 <= pos < re.len(),
{
    let c = re[pos];
    if c == '.' {
        Ok((ElementModel::AnyChar, pos + 1, groups))
    } else if c == '[' {
        match character_set(re, pos + 1) {
            Ok((k, end)) => Ok((ElementModel::CharacterSet(k), end, groups)),
            Err(e) => Err(e),
        }
    } else if c == '(' {
        if groups.count >= MAX_CAPTURES {
            Err(CompileError::TooManyCaptures)
        } else {
            let n = (groups.count + 1) as usize;
            Ok(
                (
                    ElementModel::SaveOpen(n),
                    pos + 1,
                    GroupsModel { count: n, open: groups.open.push(n) },
                ),
            )
        }
    } else if c == ')' {
        if groups.open.len() == 0 {
            Err(CompileError::UnmatchedClose)
        } else {
            Ok(
                (
                    ElementModel::SaveClose(groups.open.last()),
                    pos + 1,
                    GroupsModel { count: groups.count, open: groups.open.drop_last() },
                ),
            )
        }
    } else if c == '%' {
        escaped(re, pos, groups)
    } else {
        Ok((ElementModel::Literal(c), pos + 1, groups))
    }
}

/// The element that begins with the `%` at `pos`.
pub open spec fn escaped(re: Seq<char>, pos: int, groups: GroupsModel) -> ElementResult
    recommends
        0 <= pos < re.len(),
{
    if pos + 1 >= re.len() {
        Err(CompileError::EmptyEscape)
    } else {
        let d = re[pos + 1];
        if '1' <= d <= '9' {
            Ok((ElementModel::Captured((d as u32 - '0' as u32) as usize), pos + 2, groups))
        } else if d == 'b' {
            if pos + 3 >= re.len() || re[pos + 2] == re[pos + 3] {
                Err(CompileError::MalformedBorder)
            } else {
                Ok((ElementModel::Border(re[pos + 2], re[pos + 3]), pos + 4, groups))
            }
        } else if d == 'f' {
            if pos + 2 < re.len() && re[pos + 2] == '[' {
                match character_set(re, pos + 3) {
                    Ok((k, end)) => Ok((ElementModel::Frontier(k), end, groups)),
                    Err(e) => Err(e),
                }
            } else {
                Err(CompileError::MalformedFrontier)
            }
        } else {
            match escape_class(d) {
                Some(k) => Ok((ElementModel::CharacterClass(k), pos + 2, groups)),
                None => Err(CompileError::UnsupportedEscape),
            }
        }
    }
}

/// What the lexer yields at one position: an element with its quantifier,
/// the position after both and the groups as they then are.
pub type TokenResult = Result<(ElementModel, Quantifier, int, GroupsModel), CompileError>;

/// The element that begins at `pos`, with the quantifier that follows it.
///
/// A quantifier after an element that cannot carry it
/// ([`takes`](ElementModel::takes)) is an error.
pub open spec fn token(re: Seq<char>, pos: int, groups: GroupsModel) -> TokenResult
    recommends
        0 <= pos < re.len(),
{
    match element(re, pos, groups) {
        Err(e) => Err(e),
        Ok((e, next, after)) => {
            if 0 <= next < re.len() && quantifier_of(re[next]) is Some {
                if e.takes(quantifier_of(re[next])->0) {
                    Ok((e, quantifier_of(re[next])->0, next + 1, after))
                } else {
                    Err(CompileError::StrayQuantifier)
                }
            } else {
                Ok((e, Quantifier::ExactlyOne, next, after))
            }
        },
    }
}

/// A set ends after where its body begins, and within the pattern.
pub proof fn lemma_set_ends_later(re: Seq<char>, pos: int)
    requires
        0 <= pos,
    ensures
        set_items(re, pos) matches Ok(found) ==> pos < found.1 <= re.len(),
        character_set(re, pos) matches Ok(found) ==> pos < found.1 <= re.len(),
    decreases re.len() - pos,
{
    if pos < re.len() {
        if re[pos] != ']' {
            match set_item(re, pos) {
                Ok((item, next)) => {
                    lemma_set_ends_later(re, next);
                },
                Err(e) => {},
            }
        }
        lemma_set_ends_later(re, pos + 1);
    }
}

/// An element with its quantifier ends after where it begins, and within
/// the pattern.
pub proof fn lemma_token_ends_later(re: Seq<char>, pos: int, groups: GroupsModel)
    requires
        0 <= pos < re.len(),
    ensures
        token(re, pos, groups) matches Ok(found) ==> pos < found.2 <= re.len(),
{
    lemma_set_ends_later(re, pos + 1);
    lemma_set_ends_later(re, pos + 3);
}

/// `r` with `acc` put in front of the pairs it holds.
pub open spec fn prepend_tokens(
    acc: Seq<(ElementModel, Quantifier)>,
    r: Result<(Seq<(ElementModel, Quantifier)>, GroupsModel), CompileError>,
) -> Result<(Seq<(ElementModel, Quantifier)>, GroupsModel), CompileError> {
    match r {
        Ok((rest, groups)) => Ok((acc + rest, groups)),
        Err(e) => Err(e),
    }
}

/// The pairs from `pos` to the end of the pattern, and the groups as they
/// are at the end.
pub open spec fn tokens_from(re: Seq<char>, pos: int, groups: GroupsModel) -> Result<
    (Seq<(ElementModel, Quantifier)>, GroupsModel),
    CompileError,
>
    decreases re.len() - pos,
{
    if pos < 0 || pos >= re.len() {
        Ok((Seq::empty(), groups))
    } else {
        match token(re, pos, groups) {
            Err(e) => Err(e),
            Ok((e, q, next, after)) => {
                proof {
                    lemma_token_ends_later(re, pos, groups);
                }
                prepend_tokens(seq![(e, q)], tokens_from(re, next, after))
            },
        }
    }
}

/// The pairs that the pattern `re` consists of, or the first error in it.
/// A group left open at the end is an error.
pub open spec fn lex_spec(re: Seq<char>) -> Result<Seq<(ElementModel, Quantifier)>, CompileError> {
    match tokens_from(re, 0, GroupsModel { count: 0, open: Seq::empty() }) {
        Err(e) => Err(e),
        Ok((tokens, groups)) => if groups.open.len() > 0 {
            Err(CompileError::UnterminatedGroup)
        } else {
            Ok(tokens)
        },
    }
}

/// The class that `%` and `c` stand for.
pub fn char_to_class(c: char) -> (r: Result<CharacterClass, CompileError>)
    ensures
        match escape_class(c) {
            Some(k) => r matches Ok(class) && class@ == k,
            None => r matches Err(e) && e == CompileError::UnsupportedEscape,
        },
{
    let is_in = is_ascii_lowercase(c);
    if c == 'w' || c == 'W' {
        Ok(CharacterClass::AlphaNumeric(is_in))
    } else if c == 'a' || c == 'A' {
        Ok(CharacterClass::Letter(is_in))
    } else if c == 'c' || c == 'C' {
        Ok(CharacterClass::ControlChar(is_in))
    } else if c == 'd' || c == 'D' {
        Ok(CharacterClass::Digit(is_in))
    } else if c == 'g' || c == 'G' {
        Ok(CharacterClass::Printable(is_in))
    } else if c == 'l' || c == 'L' {
        Ok(CharacterClass::Lowercase(is_in))
    } else if c == 'p' || c == 'P' {
        Ok(CharacterClass::Punctuation(is_in))
    } else if c == 's' || c == 'S' {
        Ok(CharacterClass::WhiteSpace(is_in))
    } else if c == 'u' || c == 'U' {
        Ok(CharacterClass::Uppercase(is_in))
    } else if c == 'x' || c == 'X' {
        Ok(CharacterClass::Hexadecimal(is_in))
    } else if !c.is_alphanumeric() {
        Ok(CharacterClass::Literal(c))
    } else {
        Err(CompileError::UnsupportedEscape)
    }
}

/// Reads the members of a set from `start` up to the `]` that closes it.
/// Returns them with the position after that `]`.
pub fn to_character_set(re: &Vec<char>, start: usize) -> (r: Result<
    (Vec<CharacterClass>, usize),
    CompileError,
>)
    requires
        start <= re.len(),
    ensures
        match set_items(re@, start as int) {
            Ok((items, end)) => r matches Ok(found) && models(found.0@) == items && found.1 == end
                && start < end <= re.len(),
            Err(e) => r matches Err(f) && f == e,
        },
{
    let mut items: Vec<CharacterClass> = Vec::new();
    let mut pos: usize = start;
    loop
        invariant
            start <= pos <= re.len(),
            set_items(re@, start as int) == prepend_items(
                models(items@),
                set_items(re@, pos as int),
            ),
        decreases re.len() - pos,
    {
        if pos >= re.len() {
            return Err(CompileError::UnterminatedSet);
        }
        let c = char_at(re, pos);
        if c == ']' {
            assert(models(items@) + Seq::<ClassModel>::empty() =~= models(items@));
            return Ok((items, pos + 1));
        }
        let ghost before = items@;
        let ghost here = pos as int;
        let (item, next) = if c == '%' {
            if re.len() - pos <= 1 {
                return Err(CompileError::EmptyEscape);
            }
            match char_to_class(char_at(re, pos + 1)) {
                Ok(class) => (class, pos + 2),
                Err(e) => { return Err(e); },
            }
        } else if re.len() - pos > 2 && char_at(re, pos + 1) == '-' && char_at(re, pos + 2) != ']' {
            (CharacterClass::Range(c, char_at(re, pos + 2)), pos + 3)
        } else {
            let k = CharacterClass::Literal(c);
            assert(c == re@[here]);
            assert(c != '%');
            assert(set_item(re@, here) == Ok::<(ClassModel, int), CompileError>((k@, pos + 1)));
            (k, pos + 1)
        };
        assert(set_item(re@, here) == Ok::<(ClassModel, int), CompileError>((item@, next as int)));
        items.push(item);
        pos = next;
        proof {
            lemma_models_push(before, item);
            match set_items(re@, pos as int) {
                Ok((rest, end)) => {
                    assert(models(before) + (seq![item@] + rest) =~= (models(before) + seq![
                        item@,
                    ]) + rest);
                },
                Err(e) => {},
            }
        }
    }
}

/// The models of a sequence with one more class are the models of the
/// sequence with one more model.
pub proof fn lemma_models_push(s: Seq<CharacterClass>, k: CharacterClass)
    ensures
        models(s.push(k)) == models(s).push(k@),
        models(s.push(k)) == models(s) + seq![k@],
{
    assert(models(s.push(k)) =~= models(s).push(k@));
    assert(models(s).push(k@) =~= models(s) + seq![k@]);
}

/// Reads the set whose body begins at `start`, just after `[`.
pub fn make_character_set(re: &Vec<char>, start: usize) -> (r: Result<
    (CharacterClass, usize),
    CompileError,
>)
    requires
        start <= re.len(),
    ensures
        match character_set(re@, start as int) {
            Ok((k, end)) => r matches Ok(found) && found.0@ == k && found.1 == end && start < end
                <= re.len(),
            Err(e) => r matches Err(f) && f == e,
        },
{
    if start < re.len() && char_at(re, start) == '^' {
        let (items, end) = to_character_set(re, start + 1)?;
        Ok((CharacterClass::Unset(items), end))
    } else {
        let (items, end) = to_character_set(re, start)?;
        Ok((CharacterClass::Union(items), end))
    }
}

impl Groups {
    /// No group met yet.
    pub fn new() -> (g: Groups)
        ensures
            g@ == (GroupsModel { count: 0, open: Seq::empty() }),
    {
        Groups { count: 0, open: Vec::new() }
    }
}

impl PatternElement {
    /// Whether the element can carry the quantifier `q`.
    pub fn can_take(&self, q: &Quantifier) -> (b: bool)
        ensures
            b == self@.takes(*q),
    {
        match self {
            PatternElement::AnyChar => true,
            PatternElement::Literal(_) => true,
            PatternElement::CharacterClass(_) => true,
            PatternElement::CharacterSet(_) => true,
            PatternElement::Frontier(_) => match q {
                Quantifier::ZeroOrOne => true,
                _ => false,
            },
            _ => false,
        }
    }
}

/// The quantifier that `c` stands for, if it stands for one.
pub fn to_quantifier(c: char) -> (q: Option<Quantifier>)
    ensures
        q == quantifier_of(c),
{
    if c == '*' {
        Some(Quantifier::ZeroOrManyGreedy)
    } else if c == '+' {
        Some(Quantifier::OneOrMany)
    } else if c == '-' {
        Some(Quantifier::ZeroOrManyUngreedy)
    } else if c == '?' {
        Some(Quantifier::ZeroOrOne)
    } else {
        None
    }
}

/// Reads the element that begins with the `%` at `pos`.
fn read_escaped(re: &Vec<char>, pos: usize) -> (r: Result<(PatternElement, usize), CompileError>)
    requires
        pos < re.len(),
    ensures
        forall|groups: GroupsModel|
            match #[trigger] escaped(re@, pos as int, groups) {
                Ok((e, next, after)) => r matches Ok(found) && found.0@ == e && found.1 == next
                    && after == groups && pos < next <= re.len(),
                Err(e) => r matches Err(f) && f == e,
            },
{
    if re.len() - pos <= 1 {
        return Err(CompileError::EmptyEscape);
    }
    let d = char_at(re, pos + 1);
    if '1' <= d && d <= '9' {
        let n = (d as u32 - '0' as u32) as usize;
        Ok((PatternElement::Captured(n), pos + 2))
    } else if d == 'b' {
        if re.len() - pos <= 3 {
            return Err(CompileError::MalformedBorder);
        }
        let x = char_at(re, pos + 2);
        let y = char_at(re, pos + 3);
        if x == y {
            Err(CompileError::MalformedBorder)
        } else {
            Ok((PatternElement::Border(x, y), pos + 4))
        }
    } else if d == 'f' {
        if re.len() - pos > 2 && char_at(re, pos + 2) == '[' {
            let (class, end) = make_character_set(re, pos + 3)?;
            Ok((PatternElement::Frontier(class), end))
        } else {
            Err(CompileError::MalformedFrontier)
        }
    } else {
        let class = char_to_class(d)?;
        Ok((PatternElement::CharacterClass(class), pos + 2))
    }
}

/// Reads the element that begins at `pos`.
fn read_element(re: &Vec<char>, pos: usize, groups: &mut Groups) -> (r: Result<
    (PatternElement, usize),
    CompileError,
>)
    requires
        pos < re.len(),
        old(groups)@.ok(),
    ensures
        match element(re@, pos as int, old(groups)@) {
            Ok((e, next, after)) => r matches Ok(found) && found.0@ == e && found.1 == next
                && final(groups)@ == after && pos < next <= re.len() && after.ok(),
            Err(e) => r matches Err(f) && f == e && final(groups)@ == old(groups)@,
        },
{
    let c = char_at(re, pos);
    if c == '.' {
        Ok((PatternElement::AnyChar, pos + 1))
    } else if c == '[' {
        let (class, end) = make_character_set(re, pos + 1)?;
        Ok((PatternElement::CharacterSet(class), end))
    } else if c == '(' {
        if groups.count >= MAX_CAPTURES {
            return Err(CompileError::TooManyCaptures);
        }
        let n = groups.count + 1;
        groups.count = n;
        groups.open.push(n);
        Ok((PatternElement::SaveOpen(n), pos + 1))
    } else if c == ')' {
        match groups.open.pop() {
            Some(n) => {
                assert(groups.open@ =~= old(groups).open@.drop_last());
                Ok((PatternElement::SaveClose(n), pos + 1))
            },
            None => Err(CompileError::UnmatchedClose),
        }
    } else if c == '%' {
        read_escaped(re, pos)
    } else {
        Ok((PatternElement::Literal(c), pos + 1))
    }
}

/// Reads the element that begins at `pos`, with the quantifier that follows
/// it. Returns both with the position after them; `groups` follows the
/// groups that the element opens or closes, also where the quantifier is
/// then refused.
pub fn next_token(re: &Vec<char>, pos: usize, groups: &mut Groups) -> (r: Result<
    (PatternElement, Quantifier, usize),
    CompileError,
>)
    requires
        pos < re.len(),
        old(groups)@.ok(),
    ensures
        match token(re@, pos as int, old(groups)@) {
            Ok((e, q, next, after)) => r matches Ok(found) && found.0@ == e && found.1 == q
                && found.2 == next && final(groups)@ == after && pos < next <= re.len()
                && after.ok(),
            Err(e) => r matches Err(f) && f == e && final(groups)@ == match element(
                re@,
                pos as int,
                old(groups)@,
            ) {
                Ok(read) => read.2,
                Err(_) => old(groups)@,
            },
        },
{
    let (e, next) = read_element(re, pos, groups)?;
    if next < re.len() {
        match to_quantifier(char_at(re, next)) {
            Some(q) => {
                if e.can_take(&q) {
                    return Ok((e, q, next + 1));
                } else {
                    return Err(CompileError::StrayQuantifier);
                }
            },
            None => {},
        }
    }
    Ok((e, Quantifier::ExactlyOne, next))
}

/// The models of a sequence with one more pair are the models of the
/// sequence with one more model.
pub proof fn lemma_token_models_push(
    s: Seq<(PatternElement, Quantifier)>,
    t: (PatternElement, Quantifier),
)
    ensures
        token_models(s.push(t)) == token_models(s) + seq![(t.0@, t.1)],
{
    assert(token_models(s.push(t)) =~= token_models(s) + seq![(t.0@, t.1)]);
}

/// What holds of the pairs lexed so far, with the groups as they then are:
/// the pairs are numbered as [`tokens_ok`] asks, and each group opened so
/// far is closed or still open.
pub open spec fn lexed_so_far(acc: Seq<(ElementModel, Quantifier)>, groups: GroupsModel) -> bool {
    &&& groups.ok()
    &&& groups.count == group_count(acc)
    &&& forall|i: int| 0 <= i < acc.len() ==> token_ok(#[trigger] acc[i], groups.count as int)
    &&& forall|i: int| 0 <= i < acc.len() ==> #[trigger] numbered(acc, i)
    &&& forall|n: usize|
        1 <= n <= groups.count ==> #[trigger] closes(acc, n) || groups.open.contains(n)
}

/// One more pair keeps what holds of the pairs lexed so far.
pub proof fn lemma_token_keeps_order(
    re: Seq<char>,
    pos: int,
    groups: GroupsModel,
    acc: Seq<(ElementModel, Quantifier)>,
)
    requires
        0 <= pos < re.len(),
        lexed_so_far(acc, groups),
    ensures
        token(re, pos, groups) matches Ok(found) ==> lexed_so_far(
            acc.push((found.0, found.1)),
            found.3,
        ),
{
    if let Ok((e, q, next, after)) = token(re, pos, groups) {
        let now = acc.push((e, q));
        let last = acc.len() as int;
        assert(now.drop_last() =~= acc);
        assert(now.last() == (e, q));
        assert(groups.count <= after.count);
        assert(after.count == group_count(now));
        assert(after.ok());
        assert forall|i: int| 0 <= i < now.len() implies token_ok(
            #[trigger] now[i],
            after.count as int,
        ) by {
            if i < last {
                assert(now[i] == acc[i]);
            }
        }
        assert forall|i: int| 0 <= i < now.len() implies #[trigger] numbered(now, i) by {
            if i < last {
                assert(now.take(i) =~= acc.take(i));
                assert(numbered(acc, i));
            } else {
                assert(now.take(i) =~= acc);
            }
        }
        assert forall|n: usize| 1 <= n <= after.count implies #[trigger] closes(now, n)
            || after.open.contains(n) by {
            if n <= groups.count {
                if closes(acc, n) {
                    let i = choose|i: int|
                        0 <= i < acc.len() && (#[trigger] acc[i]).0 == ElementModel::SaveClose(n);
                    assert(now[i] == acc[i]);
                } else {
                    assert(groups.open.contains(n));
                    let k = choose|k: int| 0 <= k < groups.open.len() && groups.open[k] == n;
                    if now[last].0 is SaveClose {
                        if k == groups.open.len() - 1 {
                            assert(now[last].0 == ElementModel::SaveClose(n));
                        } else {
                            assert(after.open[k] == n);
                        }
                    } else {
                        assert(after.open[k] == n);
                    }
                }
            } else {
                assert(after.open[after.open.len() - 1] == n);
            }
        }
    }
}

/// What holds of the pairs lexed so far holds of all the pairs of the
/// pattern, and there are no more pairs than code points.
pub proof fn lemma_tokens_keep_order(
    re: Seq<char>,
    pos: int,
    groups: GroupsModel,
    acc: Seq<(ElementModel, Quantifier)>,
)
    requires
        0 <= pos <= re.len(),
        acc.len() <= pos,
        lexed_so_far(acc, groups),
    ensures
        tokens_from(re, pos, groups) matches Ok(found) ==> lexed_so_far(acc + found.0, found.1)
            && (acc + found.0).len() <= re.len(),
    decreases re.len() - pos,
{
    if pos < re.len() {
        if let Ok((e, q, next, after)) = token(re, pos, groups) {
            lemma_token_ends_later(re, pos, groups);
            lemma_token_keeps_order(re, pos, groups, acc);
            lemma_tokens_keep_order(re, next, after, acc.push((e, q)));
            if let Ok((rest, end)) = tokens_from(re, next, after) {
                assert(acc + (seq![(e, q)] + rest) =~= acc.push((e, q)) + rest);
            }
        }
    } else {
        assert(acc + Seq::<(ElementModel, Quantifier)>::empty() =~= acc);
    }
}

/// The pairs of a pattern that lexes are as [`tokens_ok`] asks, and there
/// are no more of them than the pattern has code points.
pub proof fn lemma_lexed_is_ok(re: Seq<char>)
    ensures
        lex_spec(re) matches Ok(tokens) ==> tokens_ok(tokens) && tokens.len() <= re.len(),
{
    let empty = Seq::<(ElementModel, Quantifier)>::empty();
    let none = GroupsModel { count: 0, open: Seq::empty() };
    lemma_tokens_keep_order(re, 0, none, empty);
    if let Ok(tokens) = lex_spec(re) {
        let end = tokens_from(re, 0, none)->Ok_0.1;
        assert(empty + tokens =~= tokens);
        assert forall|n: usize| 1 <= n <= group_count(tokens) implies #[trigger] closes(
            tokens,
            n,
        ) by {
            assert(!end.open.contains(n));
        }
    }
}

/// Lexes the code points of a pattern: see [`lex`].
pub fn lex_chars(re: &Vec<char>) -> (r: Result<Vec<(PatternElement, Quantifier)>, CompileError>)
    ensures
        match lex_spec(re@) {
            Ok(tokens) => r matches Ok(found) && token_models(found@) == tokens,
            Err(e) => r matches Err(f) && f == e,
        },
{
    let mut groups = Groups::new();
    let mut out: Vec<(PatternElement, Quantifier)> = Vec::new();
    let mut pos: usize = 0;
    let ghost start = groups@;
    assert(token_models(out@) + Seq::<(ElementModel, Quantifier)>::empty() =~= token_models(out@));
    while pos < re.len()
        invariant
            pos <= re.len(),
            start == (GroupsModel { count: 0, open: Seq::empty() }),
            groups@.ok(),
            tokens_from(re@, 0, start) == prepend_tokens(
                token_models(out@),
                tokens_from(re@, pos as int, groups@),
            ),
        decreases re.len() - pos,
    {
        let ghost before = out@;
        let (e, q, next) = match next_token(re, pos, &mut groups) {
            Ok(found) => found,
            Err(e) => {
                return Err(e);
            },
        };
        let pair = (e, q);
        proof {
            lemma_token_models_push(before, pair);
            match tokens_from(re@, next as int, groups@) {
                Ok((rest, after)) => {
                    assert(token_models(before) + (seq![(pair.0@, pair.1)] + rest) =~= (
                    token_models(before) + seq![(pair.0@, pair.1)]) + rest);
                },
                Err(e) => {},
            }
        }
        out.push(pair);
        pos = next;
    }
    if groups.open.len() > 0 {
        Err(CompileError::UnterminatedGroup)
    } else {
        proof {
            match tokens_from(re@, pos as int, groups@) {
                Ok((rest, after)) => {
                    assert(token_models(out@) + rest =~= token_models(out@));
                },
                Err(e) => {},
            }
        }
        Ok(out)
    }
}

/// Lexes a pattern into its elements, each with its quantifier.
///
/// The result is what the grammar [`lex_spec`] gives for the code points of
/// `re`: the pairs in order, or the first error.
pub fn lex(re: &str) -> (r: Result<Vec<(PatternElement, Quantifier)>, CompileError>)
    ensures
        match lex_spec(re@) {
            Ok(tokens) => r matches Ok(found) && token_models(found@) == tokens,
            Err(e) => r matches Err(f) && f == e,
        },
{
    let chars = chars_of(re);
    lex_chars(&chars)
}

} // verus!
