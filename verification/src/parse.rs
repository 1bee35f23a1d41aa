//! A parser for a small regular-expression syntax: literals, `.`, groups in
//! parentheses, the quantifiers `?`, `*` and `+`, and `\` to take the next
//! character literally.
//!
//! The parser keeps a stack of unfinished sequences, the innermost group
//! last. [`parse_spec`] says what it yields; the quantifier `+` is written
//! out as the element followed by the element with `*`.

use crate::input::{char_at, chars_of};
use vstd::prelude::*;
use vstd::string::StringExecFns;

verus! {

/// How often an element may match.
#[derive(Debug, Clone, Copy, PartialEq)]
pub enum Quantifier {
    ExactlyOne,
    ZeroOrOne,
    ZeroOrMore,
}

/// What is matched, with how often.
#[derive(Debug, PartialEq)]
pub struct PatternElement {
    pub quantifier: Quantifier,
    pub object: PatternObject,
}

/// What is matched.
#[derive(Debug, PartialEq)]
pub enum PatternObject {
    Wildcard,
    Literal(char),
    Group(Vec<PatternElement>),
}

/// The mathematical value of a [`PatternElement`].
pub ghost struct ElementModel {
    pub quantifier: Quantifier,
    pub object: ObjectModel,
}

/// The mathematical value of a [`PatternObject`].
pub ghost enum ObjectModel {
    Wildcard,
    Literal(char),
    Group(Seq<ElementModel>),
}

/// The models of the elements in `s`, in the same order.
pub open spec fn element_models(s: Seq<PatternElement>) -> Seq<ElementModel>
    decreases s,
{
    Seq::new(
        s.len(),
        |i: int|
            if 0 <= i < s.len() {
                s[i].view()
            } else {
                ElementModel { quantifier: Quantifier::ExactlyOne, object: ObjectModel::Wildcard }
            },
    )
}

impl View for PatternObject {
    type V = ObjectModel;

    open spec fn view(&self) -> ObjectModel
        decreases self,
    {
        match self {
            PatternObject::Wildcard => ObjectModel::Wildcard,
            PatternObject::Literal(c) => ObjectModel::Literal(*c),
            PatternObject::Group(v) => ObjectModel::Group(element_models(v@)),
        }
    }
}

impl View for PatternElement {
    type V = ElementModel;

    open spec fn view(&self) -> ElementModel
        decreases self,
    {
        ElementModel { quantifier: self.quantifier, object: self.object.view() }
    }
}

/// The models of the sequences in `s`, in the same order.
pub open spec fn stack_models(s: Seq<Vec<PatternElement>>) -> Seq<Seq<ElementModel>> {
    Seq::new(s.len(), |i: int| element_models(s[i]@))
}

/// `stack` with `e` at the end of its last sequence.
pub open spec fn push_on_top(stack: Seq<Seq<ElementModel>>, e: ElementModel) -> Seq<
    Seq<ElementModel>,
> {
    stack.drop_last().push(stack.last().push(e))
}

/// The element that matches `object` once.
pub open spec fn once(object: ObjectModel) -> ElementModel {
    ElementModel { quantifier: Quantifier::ExactlyOne, object }
}

/// `stack` after the quantifier `q` is given to the last element of its
/// last sequence; nothing where there is no such element or it has a
/// quantifier already.
pub open spec fn quantified(stack: Seq<Seq<ElementModel>>, q: Quantifier) -> Option<
    Seq<Seq<ElementModel>>,
> {
    if stack.len() == 0 || stack.last().len() == 0 || stack.last().last().quantifier
        != Quantifier::ExactlyOne {
        None
    } else {
        let e = stack.last().last();
        Some(
            stack.drop_last().push(
                stack.last().drop_last().push(ElementModel { quantifier: q, object: e.object }),
            ),
        )
    }
}

/// `stack` after `+` is applied to the last element of its last sequence:
/// the element stays and is followed by itself with `*`.
pub open spec fn repeated(stack: Seq<Seq<ElementModel>>) -> Option<Seq<Seq<ElementModel>>> {
    if stack.len() == 0 || stack.last().len() == 0 || stack.last().last().quantifier
        != Quantifier::ExactlyOne {
        None
    } else {
        let e = stack.last().last();
        Some(
            push_on_top(
                stack,
                ElementModel { quantifier: Quantifier::ZeroOrMore, object: e.object },
            ),
        )
    }
}

/// `stack` after `)`: the last sequence becomes a group at the end of the
/// sequence before it; nothing where no group is open.
pub open spec fn grouped(stack: Seq<Seq<ElementModel>>) -> Option<Seq<Seq<ElementModel>>> {
    if stack.len() <= 1 {
        None
    } else {
        Some(push_on_top(stack.drop_last(), once(ObjectModel::Group(stack.last()))))
    }
}

/// `stack` after the character `c`, which is not an escape.
pub open spec fn applied(stack: Seq<Seq<ElementModel>>, c: char) -> Option<Seq<Seq<ElementModel>>> {
    if stack.len() == 0 {
        None
    } else if c == '.' {
        Some(push_on_top(stack, once(ObjectModel::Wildcard)))
    } else if c == '?' {
        quantified(stack, Quantifier::ZeroOrOne)
    } else if c == '*' {
        quantified(stack, Quantifier::ZeroOrMore)
    } else if c == '+' {
        repeated(stack)
    } else if c == '(' {
        Some(stack.push(Seq::empty()))
    } else if c == ')' {
        grouped(stack)
    } else {
        Some(push_on_top(stack, once(ObjectModel::Literal(c))))
    }
}

/// `stack` after the characters of `re` from `pos` on; nothing where one of
/// them cannot be applied or `re` ends with `\`.
pub open spec fn parsed_from(re: Seq<char>, pos: int, stack: Seq<Seq<ElementModel>>) -> Option<
    Seq<Seq<ElementModel>>,
>
    decreases re.len() - pos,
{
    if pos < 0 || pos >= re.len() {
        Some(stack)
    } else if re[pos] == '\\' {
        if pos + 1 < re.len() && stack.len() > 0 {
            parsed_from(re, pos + 2, push_on_top(stack, once(ObjectModel::Literal(re[pos + 1]))))
        } else {
            None
        }
    } else {
        match applied(stack, re[pos]) {
            Some(next) => parsed_from(re, pos + 1, next),
            None => None,
        }
    }
}

/// The elements that the expression `re` consists of; nothing where it is
/// malformed: a quantifier with nothing to apply to or after another
/// quantifier, a `)` with no group open, a group left open, or `\` at the
/// end.
pub open spec fn parse_spec(re: Seq<char>) -> Option<Seq<ElementModel>> {
    match parsed_from(re, 0, seq![Seq::empty()]) {
        Some(stack) => if stack.len() == 1 {
            Some(stack[0])
        } else {
            None
        },
        None => None,
    }
}

impl PatternElement {
    pub fn new(quantifier: Quantifier, object: PatternObject) -> (e: Self)
        ensures
            e.quantifier == quantifier,
            e.object == object,
    {
        Self { quantifier, object }
    }

    /// A copy of the element, groups and all.
    pub fn duplicate(&self) -> (e: Self)
        ensures
            e@ == self@,
        decreases self, 1int,
    {
        let quantifier = match self.quantifier {
            Quantifier::ExactlyOne => Quantifier::ExactlyOne,
            Quantifier::ZeroOrOne => Quantifier::ZeroOrOne,
            Quantifier::ZeroOrMore => Quantifier::ZeroOrMore,
        };
        let object = match &self.object {
            PatternObject::Wildcard => PatternObject::Wildcard,
            PatternObject::Literal(c) => PatternObject::Literal(*c),
            PatternObject::Group(v) => PatternObject::Group(duplicate_all(v)),
        };
        Self { quantifier, object }
    }
}

/// A copy of the elements of `v`, groups and all.
pub fn duplicate_all(v: &Vec<PatternElement>) -> (copy: Vec<PatternElement>)
    ensures
        element_models(copy@) == element_models(v@),
    decreases v, 0int,
{
    let mut copy: Vec<PatternElement> = Vec::new();
    let mut i: usize = 0;
    while i < v.len()
        invariant
            i <= v.len(),
            copy@.len() == i,
            forall|k: int| 0 <= k < i ==> (#[trigger] copy@[k])@ == v@[k]@,
        decreases v.len() - i,
    {
        copy.push(v[i].duplicate());
        i += 1;
    }
    assert(element_models(copy@) =~= element_models(v@));
    copy
}

/// The models of a stack with a sequence put on it.
proof fn lemma_stack_push(stack: Seq<Vec<PatternElement>>, top: Vec<PatternElement>)
    ensures
        stack_models(stack.push(top)) == stack_models(stack).push(element_models(top@)),
{
    assert(stack_models(stack.push(top)) =~= stack_models(stack).push(element_models(top@)));
}

/// The models of a stack with its last sequence taken off.
proof fn lemma_stack_pop(stack: Seq<Vec<PatternElement>>)
    requires
        stack.len() > 0,
    ensures
        stack_models(stack.drop_last()) == stack_models(stack).drop_last(),
        stack_models(stack).last() == element_models(stack.last()@),
{
    assert(stack_models(stack.drop_last()) =~= stack_models(stack).drop_last());
}

/// The models of a sequence with one more element.
proof fn lemma_elements_push(s: Seq<PatternElement>, e: PatternElement)
    ensures
        element_models(s.push(e)) == element_models(s).push(e@),
{
    assert(element_models(s.push(e)) =~= element_models(s).push(e@));
}

/// The models of a sequence with its last element taken off.
proof fn lemma_elements_pop(s: Seq<PatternElement>)
    requires
        s.len() > 0,
    ensures
        element_models(s.drop_last()) == element_models(s).drop_last(),
        element_models(s).last() == s.last()@,
{
    assert(element_models(s.drop_last()) =~= element_models(s).drop_last());
}

/// Whether `q` is [`Quantifier::ExactlyOne`].
fn is_exactly_one(q: &Quantifier) -> (b: bool)
    ensures
        b == (*q == Quantifier::ExactlyOne),
{
    match q {
        Quantifier::ExactlyOne => true,
        _ => false,
    }
}

/// Puts `e` at the end of the last sequence of `stack`.
fn push_on_last(stack: &mut Vec<Vec<PatternElement>>, e: PatternElement)
    requires
        old(stack)@.len() > 0,
    ensures
        stack_models(final(stack)@) == push_on_top(stack_models(old(stack)@), e@),
        final(stack)@.len() == old(stack)@.len(),
{
    proof {
        lemma_stack_pop(stack@);
    }
    let ghost below = stack@.drop_last();
    let mut top = stack.pop().unwrap();
    proof {
        lemma_elements_push(top@, e);
        assert(stack@ =~= below);
    }
    top.push(e);
    proof {
        lemma_stack_push(stack@, top);
    }
    stack.push(top);
}

/// Gives the quantifier `quantifier` to the last element of the last
/// sequence of `stack`. Fails, and leaves `stack` as it is, where there is
/// no such element or it has a quantifier already.
pub fn make_sure_exactly_one_and_update(
    stack: &mut Vec<Vec<PatternElement>>,
    quantifier: Quantifier,
) -> (r: Result<(), String>)
    requires
        old(stack)@.len() > 0,
    ensures
        final(stack)@.len() == old(stack)@.len(),
        match quantified(stack_models(old(stack)@), quantifier) {
            Some(next) => r is Ok && stack_models(final(stack)@) == next,
            None => r matches Err(message) && stack_models(final(stack)@) == stack_models(
                old(stack)@,
            ) && message@ == if old(stack)@.last()@.len() == 0 {
                "No element for quantifier"@
            } else {
                "Too many quantifiers in the row"@
            },
        },
{
    proof {
        lemma_stack_pop(stack@);
    }
    let ghost below = stack@.drop_last();
    let ghost before = stack@;
    let mut top = stack.pop().unwrap();
    assert(stack@ =~= below);
    let ghost elements = top@;
    match top.pop() {
        Some(last) => {
            proof {
                lemma_elements_pop(elements);
                assert(top@ =~= elements.drop_last());
            }
            if !is_exactly_one(&last.quantifier) {
                top.push(last);
                assert(top@ =~= elements);
                proof {
                    lemma_stack_push(stack@, top);
                }
                stack.push(top);
                assert(stack_models(stack@) =~= stack_models(before));
                return Err(String::from_str("Too many quantifiers in the row"));
            }
            let updated = PatternElement { quantifier, object: last.object };
            proof {
                lemma_elements_push(top@, updated);
            }
            top.push(updated);
            proof {
                lemma_stack_push(stack@, top);
            }
            stack.push(top);
            Ok(())
        },
        None => {
            proof {
                lemma_stack_push(stack@, top);
            }
            stack.push(top);
            assert(stack_models(stack@) =~= stack_models(before));
            Err(String::from_str("No element for quantifier"))
        },
    }
}

/// Applies `+` to the last element of the last sequence of `stack`: the
/// element is followed by a copy of itself with `*`. Fails, and leaves
/// `stack` as it is, where there is no such element or it has a quantifier
/// already.
pub fn make_one_or_more(stack: &mut Vec<Vec<PatternElement>>) -> (r: Result<(), String>)
    requires
        old(stack)@.len() > 0,
    ensures
        final(stack)@.len() == old(stack)@.len(),
        match repeated(stack_models(old(stack)@)) {
            Some(next) => r is Ok && stack_models(final(stack)@) == next,
            None => r matches Err(message) && stack_models(final(stack)@) == stack_models(
                old(stack)@,
            ) && message@ == if old(stack)@.last()@.len() == 0 {
                "No element fo quantifier '+'"@
            } else {
                "Too many quantifiers in the row"@
            },
        },
{
    proof {
        lemma_stack_pop(stack@);
    }
    let ghost below = stack@.drop_last();
    let ghost before = stack@;
    let mut states = stack.pop().unwrap();
    assert(stack@ =~= below);
    let n = states.len();
    if n == 0 {
        proof {
            lemma_stack_push(stack@, states);
        }
        stack.push(states);
        assert(stack_models(stack@) =~= stack_models(before));
        return Err(String::from_str("No element fo quantifier '+'"));
    }
    proof {
        lemma_elements_pop(states@);
    }
    if !is_exactly_one(&states[n - 1].quantifier) {
        proof {
            lemma_stack_push(stack@, states);
        }
        stack.push(states);
        assert(stack_models(stack@) =~= stack_models(before));
        return Err(String::from_str("Too many quantifiers in the row"));
    }
    let copy = states[n - 1].duplicate();
    let zero_or_more_copy = PatternElement {
        quantifier: Quantifier::ZeroOrMore,
        object: copy.object,
    };
    proof {
        lemma_elements_push(states@, zero_or_more_copy);
    }
    states.push(zero_or_more_copy);
    proof {
        lemma_stack_push(stack@, states);
    }
    stack.push(states);
    Ok(())
}

/// Closes the innermost group: the last sequence of `stack` becomes a group
/// at the end of the sequence before it. Fails, and leaves `stack` as it
/// is, where no group is open.
pub fn make_group(stack: &mut Vec<Vec<PatternElement>>) -> (r: Result<(), String>)
    ensures
        match grouped(stack_models(old(stack)@)) {
            Some(next) => r is Ok && stack_models(final(stack)@) == next && final(stack)@.len()
                == old(stack)@.len() - 1,
            None => r matches Err(message) && final(stack)@ == old(stack)@ && message@
                == "Unexpected ')' token."@,
        },
{
    if stack.len() <= 1 {
        Err(String::from_str("Unexpected ')' token."))
    } else {
        proof {
            lemma_stack_pop(stack@);
        }
        let ghost below = stack@.drop_last();
        let states = stack.pop().unwrap();
        assert(stack@ =~= below);
        let group = PatternElement::new(Quantifier::ExactlyOne, PatternObject::Group(states));
        push_on_last(stack, group);
        Ok(())
    }
}

/// Puts the literal `c` at the end of `states`.
pub fn push_literal(states: &mut Vec<PatternElement>, c: char)
    ensures
        element_models(final(states)@) == element_models(old(states)@).push(
            once(ObjectModel::Literal(c)),
        ),
{
    let e = PatternElement::new(Quantifier::ExactlyOne, PatternObject::Literal(c));
    proof {
        lemma_elements_push(states@, e);
    }
    states.push(e);
}

/// Puts the literal `c` at the end of the last sequence of `stack`.
fn push_literal_on_last(stack: &mut Vec<Vec<PatternElement>>, c: char)
    requires
        old(stack)@.len() > 0,
    ensures
        stack_models(final(stack)@) == push_on_top(
            stack_models(old(stack)@),
            once(ObjectModel::Literal(c)),
        ),
        final(stack)@.len() == old(stack)@.len(),
{
    proof {
        lemma_stack_pop(stack@);
    }
    let ghost below = stack@.drop_last();
    let mut top = stack.pop().unwrap();
    assert(stack@ =~= below);
    push_literal(&mut top, c);
    proof {
        lemma_stack_push(stack@, top);
    }
    stack.push(top);
}

/// Parses the expression `re` into its elements.
///
/// The expression has to be well formed: what is not is left out, as there
/// is nothing to return for it.
pub fn parse(re: &str) -> (elements: Vec<PatternElement>)
    requires
        parse_spec(re@) is Some,
    ensures
        Some(element_models(elements@)) == parse_spec(re@),
{
    let chars = chars_of(re);
    let mut stack: Vec<Vec<PatternElement>> = Vec::new();
    let outermost: Vec<PatternElement> = Vec::new();
    proof {
        assert(element_models(outermost@) =~= Seq::<ElementModel>::empty());
        lemma_stack_push(stack@, outermost);
        assert(stack_models(stack@) =~= Seq::<Seq<ElementModel>>::empty());
    }
    stack.push(outermost);
    let mut pos: usize = 0;
    assert(stack_models(stack@) =~= seq![Seq::<ElementModel>::empty()]);
    while pos < chars.len()
        invariant
            chars@ == re@,
            pos <= chars.len(),
            stack@.len() > 0,
            parsed_from(chars@, pos as int, stack_models(stack@)) == parsed_from(
                chars@,
                0,
                seq![Seq::<ElementModel>::empty()],
            ),
            parsed_from(chars@, 0, seq![Seq::<ElementModel>::empty()]) is Some,
        decreases chars.len() - pos,
    {
        let next = char_at(&chars, pos);
        if next == '\\' {
            let c = char_at(&chars, pos + 1);
            push_literal_on_last(&mut stack, c);
            pos = pos + 2;
        } else {
            if next == '.' {
                push_on_last(
                    &mut stack,
                    PatternElement::new(Quantifier::ExactlyOne, PatternObject::Wildcard),
                );
            } else if next == '?' {
                make_sure_exactly_one_and_update(&mut stack, Quantifier::ZeroOrOne).unwrap();
            } else if next == '*' {
                make_sure_exactly_one_and_update(&mut stack, Quantifier::ZeroOrMore).unwrap();
            } else if next == '+' {
                make_one_or_more(&mut stack).unwrap();
            } else if next == '(' {
                let group: Vec<PatternElement> = Vec::new();
                proof {
                    lemma_stack_push(stack@, group);
                    assert(element_models(group@) =~= Seq::<ElementModel>::empty());
                }
                stack.push(group);
            } else if next == ')' {
                make_group(&mut stack).unwrap();
            } else {
                push_literal_on_last(&mut stack, next);
            }
            pos = pos + 1;
        }
    }
    stack.pop().unwrap()
}

} // verus!
