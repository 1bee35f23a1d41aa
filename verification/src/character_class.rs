//! Character classes: predicates on a single code point.

use crate::unicode::{
    alphabetic, alphanumeric, ascii_control, ascii_graphic, ascii_hexdigit, ascii_punctuation,
    is_ascii_control, is_ascii_graphic, is_ascii_hexdigit, is_ascii_punctuation,
    is_lowercase_fixed, is_uppercase_fixed, lowercase_fixed, numeric, uppercase_fixed, whitespace,
};
use vstd::prelude::*;

verus! {

/// A predicate on one code point.
///
/// The flag of a named class says whether the class is taken as it is
/// (`true`, written with a lowercase letter in a pattern) or complemented
/// (`false`, written with the uppercase letter).
#[derive(Debug, PartialEq, Eq)]
pub enum CharacterClass {
    Literal(char),
    Any,
    AlphaNumeric(bool),
    Letter(bool),
    ControlChar(bool),
    Digit(bool),
    Printable(bool),
    Lowercase(bool),
    Punctuation(bool),
    WhiteSpace(bool),
    Uppercase(bool),
    Hexadecimal(bool),
    /// Both ends belong to the range.
    Range(char, char),
    /// The union of the members.
    Union(Vec<CharacterClass>),
    /// The complement of the union of the members.
    Unset(Vec<CharacterClass>),
}

/// The mathematical value of a [`CharacterClass`].
pub ghost enum ClassModel {
    Literal(char),
    Any,
    AlphaNumeric(bool),
    Letter(bool),
    ControlChar(bool),
    Digit(bool),
    Printable(bool),
    Lowercase(bool),
    Punctuation(bool),
    WhiteSpace(bool),
    Uppercase(bool),
    Hexadecimal(bool),
    Range(char, char),
    Union(Seq<ClassModel>),
    Unset(Seq<ClassModel>),
}

/// The models of the classes in `s`, in the same order.
pub open spec fn models(s: Seq<CharacterClass>) -> Seq<ClassModel>
    decreases s,
{
    Seq::new(s.len(), |i: int| if 0 <= i < s.len() { s[i].view() } else { ClassModel::Any })
}

impl View for CharacterClass {
    type V = ClassModel;

    open spec fn view(&self) -> ClassModel
        decreases self,
    {
        match self {
            CharacterClass::Literal(c) => ClassModel::Literal(*c),
            CharacterClass::Any => ClassModel::Any,
            CharacterClass::AlphaNumeric(p) => ClassModel::AlphaNumeric(*p),
            CharacterClass::Letter(p) => ClassModel::Letter(*p),
            CharacterClass::ControlChar(p) => ClassModel::ControlChar(*p),
            CharacterClass::Digit(p) => ClassModel::Digit(*p),
            CharacterClass::Printable(p) => ClassModel::Printable(*p),
            CharacterClass::Lowercase(p) => ClassModel::Lowercase(*p),
            CharacterClass::Punctuation(p) => ClassModel::Punctuation(*p),
            CharacterClass::WhiteSpace(p) => ClassModel::WhiteSpace(*p),
            CharacterClass::Uppercase(p) => ClassModel::Uppercase(*p),
            CharacterClass::Hexadecimal(p) => ClassModel::Hexadecimal(*p),
            CharacterClass::Range(a, b) => ClassModel::Range(*a, *b),
            CharacterClass::Union(v) => ClassModel::Union(models(v@)),
            CharacterClass::Unset(v) => ClassModel::Unset(models(v@)),
        }
    }
}

impl ClassModel {
    /// Whether the code point `c` belongs to the class.
    pub open spec fn accepts(self, c: char) -> bool
        decreases self,
    {
        match self {
            ClassModel::Literal(d) => c == d,
            ClassModel::Any => true,
            ClassModel::AlphaNumeric(p) => p == alphanumeric(c),
            ClassModel::Letter(p) => p == alphabetic(c),
            ClassModel::ControlChar(p) => p == ascii_control(c),
            ClassModel::Digit(p) => p == numeric(c),
            ClassModel::Printable(p) => p == ascii_graphic(c),
            ClassModel::Lowercase(p) => p == lowercase_fixed(c),
            ClassModel::Punctuation(p) => p == ascii_punctuation(c),
            ClassModel::WhiteSpace(p) => p == whitespace(c),
            ClassModel::Uppercase(p) => p == uppercase_fixed(c),
            ClassModel::Hexadecimal(p) => p == ascii_hexdigit(c),
            ClassModel::Range(a, b) => a <= c <= b,
            ClassModel::Union(s) => any_accepts(s, c),
            ClassModel::Unset(s) => !any_accepts(s, c),
        }
    }
}

/// Whether some class in `s` accepts `c`.
pub open spec fn any_accepts(s: Seq<ClassModel>, c: char) -> bool
    decreases s,
{
    exists|i: int| 0 <= i < s.len() && (#[trigger] s[i]).accepts(c)
}

impl CharacterClass {
    /// Tests whether the code point `other` belongs to the class.
    pub fn is_matched(&self, other: &char) -> (b: bool)
        ensures
            b == self@.accepts(*other),
        decreases self, 0int,
    {
        let c = *other;
        match self {
            CharacterClass::Literal(d) => *d == c,
            CharacterClass::Any => true,
            CharacterClass::AlphaNumeric(is_in) => *is_in == c.is_alphanumeric(),
            CharacterClass::Letter(is_in) => *is_in == c.is_alphabetic(),
            CharacterClass::ControlChar(is_in) => *is_in == is_ascii_control(c),
            CharacterClass::Digit(is_in) => *is_in == c.is_numeric(),
            CharacterClass::Printable(is_in) => *is_in == is_ascii_graphic(c),
            CharacterClass::Lowercase(is_in) => *is_in == is_lowercase_fixed(c),
            CharacterClass::Punctuation(is_in) => *is_in == is_ascii_punctuation(c),
            CharacterClass::WhiteSpace(is_in) => *is_in == c.is_whitespace(),
            CharacterClass::Uppercase(is_in) => *is_in == is_uppercase_fixed(c),
            CharacterClass::Hexadecimal(is_in) => *is_in == is_ascii_hexdigit(c),
            CharacterClass::Range(a, b) => *a <= c && c <= *b,
            CharacterClass::Union(s) => any_matched(s, other),
            CharacterClass::Unset(s) => !any_matched(s, other),
        }
    }
}

/// Tests whether some class of `s` accepts `other`, stopping at the first
/// that does.
pub fn any_matched(s: &Vec<CharacterClass>, other: &char) -> (b: bool)
    ensures
        b == any_accepts(models(s@), *other),
    decreases s, 1int,
{
    let mut i: usize = 0;
    while i < s.len()
        invariant
            i <= s.len(),
            forall|j: int| 0 <= j < i ==> !(#[trigger] models(s@)[j]).accepts(*other),
        decreases s.len() - i,
    {
        if s[i].is_matched(other) {
            assert(models(s@)[i as int].accepts(*other));
            return true;
        }
        i += 1;
    }
    false
}

} // verus!
