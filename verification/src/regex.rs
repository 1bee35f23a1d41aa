//! Compiled patterns: what a pattern compiles to, and how the program is
//! driven over a subject.

use crate::assemble::{
    assemble, block, body, code_for, lemma_assembled_is_runnable, lemma_assembled_so_far,
    lemma_body_step, max_pattern_len,
};
use crate::character_class::CharacterClass;
use crate::code::{code_models, grouped, well_formed, Code, CodeModel};
use crate::context::{range_ends, spans, Context};
use crate::error::CompileError;
use crate::input::{byte_offset, char_at, chars_of, Input};
use crate::lexer::{
    group_count, lemma_lexed_is_ok, lex_chars, lex_spec, token_models, token_ok, tokens_ok,
    ElementModel, PatternElement, Quantifier, MAX_CAPTURES,
};
use crate::recursive::{
    attempt, exec, fresh, lemma_attempt_records, lemma_run_advances, slot_recorded, Thread,
};
use crate::{is_offset, Match};
use core::ops::Range;
use vstd::prelude::*;

verus! {

/// Whether the pattern begins with the anchor `^`.
pub open spec fn anchored_start(re: Seq<char>) -> bool {
    re.len() > 0 && re[0] == '^'
}

/// Whether the pattern ends with the anchor `$`.
pub open spec fn anchored_end(re: Seq<char>) -> bool {
    re.len() > 0 && re.last() == '$'
}

/// The pattern without its anchors.
pub open spec fn pattern_body(re: Seq<char>) -> Seq<char> {
    re.subrange(
        if anchored_start(re) {
            1
        } else {
            0
        },
        if anchored_end(re) {
            re.len() - 1
        } else {
            re.len() as int
        },
    )
}

/// The mathematical value of a [`Regex`].
pub ghost struct RegexModel {
    pub program: Seq<CodeModel>,
    pub anchor_start: bool,
    pub anchor_end: bool,
    pub captures: usize,
}

impl RegexModel {
    /// The program can be run with two slots for each group and two for the
    /// whole match, and its groups are in order.
    pub open spec fn runnable(self) -> bool {
        &&& self.captures <= MAX_CAPTURES
        &&& well_formed(self.program, 2 * self.captures + 2)
        &&& grouped(self.program, 2 * self.captures + 2)
    }
}

/// Whether `found` is what the pattern `m` finds in `subj`: one entry for
/// each match of [`scan`], in order, with the byte ranges of the whole match
/// and of the groups.
pub open spec fn is_match_list(found: Seq<Match>, m: RegexModel, subj: &str) -> bool {
    &&& found.len() == scan(m, subj@, 0).len()
    &&& forall|k: int|
        0 <= k < found.len() ==> (#[trigger] found[k]).subj == subj && found[k].wf() && found[k]@
            == spans(subj@, scan(m, subj@, 0)[k].saved)
}

/// What the pattern `re` compiles to, or the first error in it.
///
/// A `^` at the beginning and a `$` at the end are anchors; what is between
/// them is lexed and assembled. The empty pattern compiles, to a program
/// that matches the empty text wherever it is tried.
pub open spec fn compile_spec(re: Seq<char>) -> Result<RegexModel, CompileError> {
    match lex_spec(pattern_body(re)) {
        Err(e) => Err(e),
        Ok(tokens) => Ok(
            RegexModel {
                program: assemble(tokens),
                anchor_start: anchored_start(re),
                anchor_end: anchored_end(re),
                captures: group_count(tokens),
            },
        ),
    }
}

/// The state in which the pattern accepts when it is tried at the code
/// point `start` of `input`, or nothing if it does not match there. Where
/// the pattern is anchored at the end, only a match that ends at the end of
/// `input` is accepted.
pub open spec fn accepted_at(m: RegexModel, input: Seq<char>, start: int) -> Option<Thread> {
    match attempt(m.program, input, start, 2 * m.captures + 2) {
        Some(t) => if !m.anchor_end || t.sp >= input.len() {
            Some(t)
        } else {
            None
        },
        None => None,
    }
}

/// Where the search goes on after a match from `start` that ended at `end`:
/// at `end`, or one code point after `start` where the match was empty.
pub open spec fn next_start(start: int, end: int) -> int {
    if start < end {
        end
    } else {
        start + 1
    }
}

/// The matches of the pattern in `input` from the code point `start` on,
/// each as the state in which the machine accepted.
///
/// The pattern is tried at `start`. If it matches, the search goes on where
/// [`next_start`] says; if not, one code point further. No attempt is made
/// at the end of `input`, and a pattern that is anchored at the start is
/// tried only once.
pub open spec fn scan(m: RegexModel, input: Seq<char>, start: int) -> Seq<Thread>
    decreases input.len() - start,
{
    if start < 0 || start >= input.len() {
        Seq::empty()
    } else {
        match accepted_at(m, input, start) {
            Some(t) => seq![t] + if m.anchor_start {
                Seq::empty()
            } else {
                proof {
                    lemma_run_advances(m.program, input, 0, start, fresh(2 * m.captures + 2));
                }
                scan(m, input, next_start(start, t.sp))
            },
            None => if m.anchor_start {
                Seq::empty()
            } else {
                scan(m, input, start + 1)
            },
        }
    }
}

/// A compiled pattern.
#[derive(Debug)]
pub struct Regex {
    program: Vec<Code>,
    anchor_start: bool,
    anchor_end: bool,
    captures: usize,
}

impl View for Regex {
    type V = RegexModel;

    closed spec fn view(&self) -> RegexModel {
        RegexModel {
            program: code_models(self.program@),
            anchor_start: self.anchor_start,
            anchor_end: self.anchor_end,
            captures: self.captures,
        }
    }
}

/// The instruction that does the work of the element `lex`.
pub fn code_for_lex(lex: PatternElement) -> (code: Code)
    requires
        lex@ matches ElementModel::SaveOpen(n) ==> n <= MAX_CAPTURES,
        lex@ matches ElementModel::SaveClose(n) ==> n <= MAX_CAPTURES,
    ensures
        code@ == code_for(lex@),
{
    match lex {
        PatternElement::AnyChar => Code::Char(CharacterClass::Any),
        PatternElement::Literal(c) => Code::Char(CharacterClass::Literal(c)),
        PatternElement::CharacterClass(c) => Code::Char(c),
        PatternElement::CharacterSet(c) => Code::Char(c),
        PatternElement::Captured(n) => Code::Captured(n),
        PatternElement::Border(x, y) => Code::Border(x, y),
        PatternElement::SaveOpen(n) => Code::Save(2 * n),
        PatternElement::SaveClose(n) => Code::Save(2 * n + 1),
        PatternElement::Frontier(s) => Code::Frontier(s),
    }
}

/// The code points of `re` without its anchors.
fn strip_anchors(re: &Vec<char>) -> (r: (Vec<char>, bool, bool))
    ensures
        r.0@ == pattern_body(re@),
        r.1 == anchored_start(re@),
        r.2 == anchored_end(re@),
{
    let n = re.len();
    let anchor_start = n > 0 && char_at(re, 0) == '^';
    let anchor_end = n > 0 && char_at(re, n - 1) == '$';
    let start: usize = if anchor_start { 1 } else { 0 };
    let end: usize = if anchor_end { n - 1 } else { n };
    let mut inner: Vec<char> = Vec::new();
    let mut i: usize = start;
    while i < end
        invariant
            start <= i <= end <= n,
            n == re.len(),
            inner@ == re@.subrange(start as int, i as int),
        decreases end - i,
    {
        inner.push(char_at(re, i));
        i += 1;
        assert(inner@ =~= re@.subrange(start as int, i as int));
    }
    (inner, anchor_start, anchor_end)
}

impl Regex {
    #[verifier::type_invariant]
    spec fn runnable(self) -> bool {
        &&& self.captures <= MAX_CAPTURES
        &&& well_formed(code_models(self.program@), 2 * self.captures + 2)
        &&& grouped(code_models(self.program@), 2 * self.captures + 2)
    }

    /// Compiles a pattern: see [`compile`].
    pub fn new(re: &str) -> (r: Result<Regex, CompileError>)
        requires
            re@.len() <= max_pattern_len(),
        ensures
            match compile_spec(re@) {
                Ok(model) => r matches Ok(regex) && regex@ == model && model.runnable(),
                Err(e) => r matches Err(f) && f == e,
            },
    {
        let chars = chars_of(re);
        let (inner, anchor_start, anchor_end) = strip_anchors(&chars);
        let tokens = match lex_chars(&inner) {
            Ok(tokens) => tokens,
            Err(e) => {
                return Err(e);
            },
        };
        let ghost models = token_models(tokens@);
        proof {
            lemma_lexed_is_ok(inner@);
            lemma_assembled_is_runnable(models);
        }
        let mut prog: Vec<Code> = Vec::new();
        prog.push(Code::Save(0));
        let mut captures: usize = 0;
        proof {
            assert(models.take(0) =~= Seq::empty());
            assert(code_models(prog@) =~= seq![CodeModel::Save(0)] + body(models.take(0)));
        }
        for pair in it: tokens.into_iter()
            invariant
                token_models(it.seq()) == models,
                it.seq().len() <= max_pattern_len(),
                tokens_ok(models),
                captures == group_count(models.take(it.index() as int)),
                code_models(prog@) == seq![CodeModel::Save(0)] + body(
                    models.take(it.index() as int),
                ),
        {
            let ghost i = it.index() as int;
            let ghost before = code_models(prog@);
            let (lex, quantifier) = pair;
            proof {
                lemma_body_step(models, i);
                lemma_assembled_so_far(models, i);
                assert(models[i] == (lex@, quantifier));
                assert(token_ok(models[i], group_count(models) as int));
            }
            if let PatternElement::SaveOpen(n) = &lex {
                if *n > captures {
                    captures = *n;
                }
            }
            let code = code_for_lex(lex);
            let pc = prog.len();
            match quantifier {
                Quantifier::ExactlyOne => {
                    prog.push(code);
                },
                Quantifier::ZeroOrOne => {
                    prog.push(Code::Split { x: pc + 1, y: pc + 2 });
                    prog.push(code);
                },
                Quantifier::OneOrMany => {
                    prog.push(code);
                    prog.push(Code::Split { x: pc, y: pc + 2 });
                },
                Quantifier::ZeroOrManyGreedy => {
                    prog.push(Code::Split { x: pc + 1, y: pc + 3 });
                    prog.push(code);
                    prog.push(Code::Jmp(pc));
                },
                Quantifier::ZeroOrManyUngreedy => {
                    prog.push(Code::Split { x: pc + 3, y: pc + 1 });
                    prog.push(code);
                    prog.push(Code::Jmp(pc));
                },
            }
            proof {
                assert(code_models(prog@) =~= before + block(models[i].0, models[i].1, pc as int));
                assert(seq![CodeModel::Save(0)] + (body(models.take(i)) + block(
                    models[i].0,
                    models[i].1,
                    pc as int,
                )) =~= before + block(models[i].0, models[i].1, pc as int));
            }
        }
        proof {
            assert(models.take(models.len() as int) =~= models);
        }
        let ghost open = code_models(prog@);
        prog.push(Code::Save(1));
        prog.push(Code::Match);
        proof {
            assert(code_models(prog@) =~= open + seq![CodeModel::Save(1), CodeModel::Match]);
        }
        Ok(Regex { program: prog, anchor_start, anchor_end, captures })
    }

    /// The first match of the pattern in `subj`, if there is one.
    pub fn match_one<'a>(&self, subj: &'a str) -> (found: Option<Match<'a>>)
        ensures
            match found {
                Some(m) => scan(self@, subj@, 0).len() > 0 && m.subj == subj && m.wf() && m@
                    == spans(subj@, scan(self@, subj@, 0)[0].saved),
                None => scan(self@, subj@, 0).len() == 0,
            },
            self@.runnable(),
            subj@.len() <= usize::MAX,
    {
        proof {
            use_type_invariant(self);
        }
        let mut ctx = Context::new(self.program.as_slice(), Input::new(subj), self.captures);
        match self.find_match(&mut ctx) {
            Some(captures) => Some(Match { subj, captures }),
            None => None,
        }
    }

    /// All matches of the pattern in `subj`, from left to right.
    ///
    /// They are the matches that [`scan`] finds from the first code point
    /// on: each holds the byte ranges of the whole match and of the groups.
    pub fn match_all<'a>(&self, subj: &'a str) -> (matches: Vec<Match<'a>>)
        ensures
            is_match_list(matches@, self@, subj),
            self@.runnable(),
            subj@.len() <= usize::MAX,
    {
        proof {
            use_type_invariant(self);
        }
        let mut matches: Vec<Match<'a>> = Vec::new();
        let mut ctx = Context::new(self.program.as_slice(), Input::new(subj), self.captures);
        let ghost all = scan(self@, subj@, 0);
        let ghost mut rest = all;
        proof {
            assert(Seq::<Thread>::empty() + rest =~= all);
        }
        while !ctx.exhausted()
            invariant_except_break
                rest == scan(self@, subj@, ctx.subj_pointer as int),
            invariant
                ctx.wf(),
                ctx.input@ == subj@,
                code_models(ctx.program@) == self@.program,
                ctx.saved@.len() == 2 * self@.captures + 2,
                all == scan(self@, subj@, 0),
                matches@.len() + rest.len() == all.len(),
                forall|k: int| 0 <= k < rest.len() ==> rest[k] == all[matches@.len() + k],
                forall|k: int|
                    0 <= k < matches@.len() ==> (#[trigger] matches@[k]).subj == subj
                        && matches@[k].wf() && matches@[k]@ == spans(subj@, all[k].saved),
            ensures
                rest.len() == 0,
            decreases subj@.len() - ctx.subj_pointer,
        {
            let ghost before = rest;
            let ghost at = ctx.subj_pointer as int;
            if let Some(captures) = self.find_match(&mut ctx) {
                proof {
                    rest = if self@.anchor_start {
                        Seq::empty()
                    } else {
                        scan(self@, subj@, ctx.subj_pointer as int)
                    };
                    assert(before == seq![before[0]] + rest);
                    assert(before[0] == all[matches@.len() as int]);
                    assert forall|k: int| 0 <= k < rest.len() implies rest[k] == all[matches@.len()
                        + 1 + k] by {
                        assert(before[k + 1] == rest[k]);
                    }
                }
                matches.push(Match { subj, captures });
            } else {
                proof {
                    rest = Seq::empty();
                }
            }
            if self.anchor_start {
                break;
            }
        }
        matches
    }

    /// Tries the pattern from the position of `ctx` on, one code point
    /// after the other, until it matches or the subject is exhausted; a
    /// pattern that is anchored at the start is tried once. Returns the
    /// byte ranges of the match, and leaves `ctx` where the search goes on.
    fn find_match(&self, ctx: &mut Context) -> (found: Option<Vec<Range<usize>>>)
        requires
            old(ctx).wf(),
            code_models(old(ctx).program@) == self@.program,
            old(ctx).saved@.len() == 2 * self@.captures + 2,
        ensures
            final(ctx).wf(),
            final(ctx).program == old(ctx).program,
            final(ctx).input == old(ctx).input,
            final(ctx).saved@.len() == old(ctx).saved@.len(),
            old(ctx).subj_pointer < old(ctx).input@.len() ==> {
                &&& old(ctx).subj_pointer < final(ctx).subj_pointer
                &&& final(ctx).subj_pointer <= old(ctx).input@.len()
            },
            match found {
                Some(ranges) => {
                    let all = scan(self@, old(ctx).input@, old(ctx).subj_pointer as int);
                    &&& all.len() > 0
                    &&& range_ends(ranges@) == spans(old(ctx).input@, all[0].saved)
                    &&& all == seq![all[0]] + if self@.anchor_start {
                        Seq::empty()
                    } else {
                        scan(self@, old(ctx).input@, final(ctx).subj_pointer as int)
                    }
                    &&& forall|k: int|
                        0 <= k < ranges@.len() ==> is_offset(
                            old(ctx).input@,
                            (#[trigger] ranges@[k]).start as int,
                        ) && is_offset(old(ctx).input@, ranges@[k].end as int)
                },
                None => scan(self@, old(ctx).input@, old(ctx).subj_pointer as int).len() == 0 && (
                self@.anchor_start || final(ctx).subj_pointer >= old(ctx).input@.len()),
            },
    {
        proof {
            use_type_invariant(self);
        }
        let ghost input = ctx.input@;
        let ghost first = ctx.subj_pointer as int;
        while !ctx.exhausted()
            invariant
                ctx.wf(),
                ctx.program == old(ctx).program,
                ctx.input == old(ctx).input,
                input == ctx.input@,
                first == old(ctx).subj_pointer,
                old(ctx).saved@.len() == 2 * self@.captures + 2,
                code_models(ctx.program@) == self@.program,
                ctx.saved@.len() == 2 * self@.captures + 2,
                self@.captures <= MAX_CAPTURES,
                grouped(self@.program, 2 * self@.captures + 2),
                first <= ctx.subj_pointer,
                first <= input.len() ==> ctx.subj_pointer <= input.len(),
                ctx.subj_pointer == first || !self@.anchor_start,
                scan(self@, input, first) == scan(self@, input, ctx.subj_pointer as int),
            decreases input.len() - ctx.subj_pointer,
        {
            let start = ctx.subj_pointer;
            ctx.restart(start);
            proof {
                lemma_attempt_records(
                    self@.program,
                    input,
                    start as int,
                    2 * self@.captures + 2,
                );
            }
            if exec(ctx) {
                if !self.anchor_end || ctx.exhausted() {
                    let ghost t = ctx.thread();
                    proof {
                        assert forall|s: int|
                            0 <= s < t.saved.len() implies #[trigger] slot_recorded(
                            t.saved,
                            s,
                            input.len() as int,
                        ) by {
                            assert(slot_recorded(t.saved, s, t.sp));
                        }
                    }
                    let matches = self.captured_ranges(ctx);
                    proof {
                        assert(range_ends(matches@).len() == spans(input, t.saved).len());
                        assert forall|k: int| 0 <= k < matches@.len() implies is_offset(
                            input,
                            (#[trigger] matches@[k]).start as int,
                        ) && is_offset(input, matches@[k].end as int) by {
                            assert(range_ends(matches@)[k] == spans(input, t.saved)[k]);
                            assert(slot_recorded(t.saved, 2 * k, t.sp));
                            assert(slot_recorded(t.saved, 2 * k + 1, t.sp));
                            assert(byte_offset(input, t.saved[2 * k]->0 as int)
                                == matches@[k].start);
                            assert(byte_offset(input, t.saved[2 * k + 1]->0 as int)
                                == matches@[k].end);
                        }
                    }
                    if ctx.subj_pointer == start {
                        ctx.subj_pointer = start + 1;
                    }
                    ctx.program_counter = 0;
                    return Some(matches);
                } else {
                    ctx.subj_pointer = start + 1;
                }
            } else {
                ctx.subj_pointer = start + 1;
            }
            ctx.program_counter = 0;
            if self.anchor_start {
                return None;
            }
        }
        None
    }

    /// The byte ranges of the whole match and of the groups, after the
    /// machine has accepted.
    fn captured_ranges(&self, ctx: &Context) -> (ranges: Vec<Range<usize>>)
        requires
            ctx.wf(),
            forall|s: int|
                0 <= s < ctx.saved@.len() ==> #[trigger] slot_recorded(
                    ctx.saved@,
                    s,
                    ctx.input@.len() as int,
                ),
        ensures
            range_ends(ranges@) == spans(ctx.input@, ctx.saved@),
    {
        ctx.captured_ranges()
    }

    /// The instructions of the program.
    pub fn program(&self) -> (p: &Vec<Code>)
        ensures
            code_models(p@) == self@.program,
    {
        &self.program
    }

    /// Whether a match has to begin at the beginning of the subject.
    pub fn anchor_start(&self) -> (b: bool)
        ensures
            b == self@.anchor_start,
    {
        self.anchor_start
    }

    /// Whether a match has to end at the end of the subject.
    pub fn anchor_end(&self) -> (b: bool)
        ensures
            b == self@.anchor_end,
    {
        self.anchor_end
    }

    /// The number of groups of the pattern.
    pub fn captures(&self) -> (n: usize)
        ensures
            n == self@.captures,
    {
        self.captures
    }
}

/// Compiles the pattern `re`.
///
/// The result is what [`compile_spec`] gives for the code points of `re`:
/// the program with its anchors and the number of its groups, or the first
/// error in the pattern.
pub fn compile(re: &str) -> (r: Result<Regex, CompileError>)
    requires
        re@.len() <= max_pattern_len(),
    ensures
        match compile_spec(re@) {
            Ok(model) => r matches Ok(regex) && regex@ == model && model.runnable(),
            Err(e) => r matches Err(f) && f == e,
        },
{
    Regex::new(re)
}

} // verus!
