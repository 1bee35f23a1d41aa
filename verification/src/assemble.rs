//! How the pairs of a lexed pattern become a program, and why that program
//! is well formed.

use crate::character_class::ClassModel;
use crate::code::{
    group_ok, grouped, grouped_prefix, has_save, instruction_ok, jumps_back, well_formed,
    well_formed_prefix, CodeModel,
};
use crate::lexer::{
    closes, group_count, numbered, token_ok, tokens_ok, ElementModel, Quantifier, MAX_CAPTURES,
};
use vstd::prelude::*;

verus! {

/// The instruction that does the work of the element `e`.
pub open spec fn code_for(e: ElementModel) -> CodeModel {
    match e {
        ElementModel::AnyChar => CodeModel::Char(ClassModel::Any),
        ElementModel::Literal(c) => CodeModel::Char(ClassModel::Literal(c)),
        ElementModel::CharacterClass(k) => CodeModel::Char(k),
        ElementModel::CharacterSet(k) => CodeModel::Char(k),
        ElementModel::Captured(n) => CodeModel::Captured(n),
        ElementModel::Border(x, y) => CodeModel::Border(x, y),
        ElementModel::SaveOpen(n) => CodeModel::Save((2 * n) as usize),
        ElementModel::SaveClose(n) => CodeModel::Save((2 * n + 1) as usize),
        ElementModel::Frontier(k) => CodeModel::Frontier(k),
    }
}

/// The instructions that the element `e` with the quantifier `q` is
/// compiled to, where the first of them is instruction `pc` of the program.
pub open spec fn block(e: ElementModel, q: Quantifier, pc: int) -> Seq<CodeModel> {
    let code = code_for(e);
    match q {
        Quantifier::ExactlyOne => seq![code],
        Quantifier::ZeroOrOne => seq![
            CodeModel::Split { x: (pc + 1) as usize, y: (pc + 2) as usize },
            code,
        ],
        Quantifier::OneOrMany => seq![
            code,
            CodeModel::Split { x: pc as usize, y: (pc + 2) as usize },
        ],
        Quantifier::ZeroOrManyGreedy => seq![
            CodeModel::Split { x: (pc + 1) as usize, y: (pc + 3) as usize },
            code,
            CodeModel::Jmp(pc as usize),
        ],
        Quantifier::ZeroOrManyUngreedy => seq![
            CodeModel::Split { x: (pc + 3) as usize, y: (pc + 1) as usize },
            code,
            CodeModel::Jmp(pc as usize),
        ],
    }
}

/// The instructions that `tokens` are compiled to, one block after the
/// other, where the first of them is instruction 1 of the program.
pub open spec fn body(tokens: Seq<(ElementModel, Quantifier)>) -> Seq<CodeModel>
    decreases tokens.len(),
{
    if tokens.len() == 0 {
        Seq::empty()
    } else {
        let before = body(tokens.drop_last());
        before + block(tokens.last().0, tokens.last().1, 1 + before.len() as int)
    }
}

/// The program for `tokens`: `Save(0)`, the blocks, `Save(1)` and `Match`.
pub open spec fn assemble(tokens: Seq<(ElementModel, Quantifier)>) -> Seq<CodeModel> {
    seq![CodeModel::Save(0)] + body(tokens) + seq![CodeModel::Save(1), CodeModel::Match]
}

/// The longest pattern that can be compiled: each code point of it may
/// become three instructions, and their number has to fit.
pub open spec fn max_pattern_len() -> int {
    (usize::MAX - 3) / 3
}

/// Neither `Match` nor `Save(1)` stands in `prog`: the program is still
/// open at its end.
pub open spec fn open_ended(prog: Seq<CodeModel>) -> bool {
    forall|pc: int|
        0 <= pc < prog.len() ==> #[trigger] prog[pc] != CodeModel::Match && prog[pc]
            != CodeModel::Save(1)
}

/// A program that is in order stays so when the block of one more lexed
/// pair is put at its end.
pub proof fn lemma_block_keeps_order(
    prog: Seq<CodeModel>,
    t: (ElementModel, Quantifier),
    count: int,
)
    requires
        prog.len() >= 1,
        prog.len() + 3 <= usize::MAX,
        0 <= count <= MAX_CAPTURES,
        well_formed_prefix(prog, 2 * count + 2),
        open_ended(prog),
        token_ok(t, count),
    ensures
        well_formed_prefix(prog + block(t.0, t.1, prog.len() as int), 2 * count + 2),
        open_ended(prog + block(t.0, t.1, prog.len() as int)),
{
    let base = prog.len() as int;
    let added = block(t.0, t.1, base);
    let all = prog + added;
    let slots = 2 * count + 2;
    let code = code_for(t.0);
    assert(!jumps_back(all, base));
    assert(t.1 != Quantifier::ExactlyOne && t.1 != Quantifier::ZeroOrOne ==> code is Char);
    assert(t.1 == Quantifier::ZeroOrOne ==> code is Char || code is Frontier);
    assert forall|pc: int| 0 <= pc < all.len() implies #[trigger] instruction_ok(
        all,
        slots,
        pc,
    ) by {
        if pc < base {
            assert(instruction_ok(prog, slots, pc));
            assert(all[pc] == prog[pc]);
            assert(forall|u: int| 0 <= u < base ==> (jumps_back(all, u) <==> jumps_back(prog, u)));
            if pc >= 1 {
                assert(all[pc - 1] == prog[pc - 1]);
            }
        } else {
            assert(all[pc] == added[pc - base]);
            if pc > base {
                assert(all[pc - 1] == added[pc - 1 - base]);
            }
            assert(!jumps_back(all, base + 1) || t.1 == Quantifier::OneOrMany);
        }
    }
    assert forall|pc: int| 0 <= pc < all.len() implies #[trigger] all[pc] != CodeModel::Match
        && all[pc] != CodeModel::Save(1) by {
        if pc < base {
            assert(all[pc] == prog[pc]);
        } else {
            assert(all[pc] == added[pc - base]);
        }
    }
}

/// A program whose groups are in order stays so when the block of one more
/// lexed pair is put at its end.
pub proof fn lemma_block_keeps_groups(
    prog: Seq<CodeModel>,
    t: (ElementModel, Quantifier),
    groups: int,
    slots: int,
)
    requires
        1 <= prog.len(),
        prog.len() + 3 <= usize::MAX,
        0 <= groups <= MAX_CAPTURES,
        grouped_prefix(prog, groups),
        well_formed_prefix(prog, slots),
        t.1 != Quantifier::ExactlyOne ==> t.0.takes(t.1),
        t.0 matches ElementModel::SaveOpen(n) ==> n == groups + 1 && n <= MAX_CAPTURES,
        t.0 matches ElementModel::SaveClose(n) ==> 1 <= n <= groups,
    ensures
        grouped_prefix(
            prog + block(t.0, t.1, prog.len() as int),
            if t.0 is SaveOpen {
                groups + 1
            } else {
                groups
            },
        ),
        forall|s: int|
            has_save(prog, s) ==> has_save(prog + block(t.0, t.1, prog.len() as int), s),
        t.0 matches ElementModel::SaveClose(n) ==> has_save(
            prog + block(t.0, t.1, prog.len() as int),
            2 * n + 1,
        ),
{
    let base = prog.len() as int;
    let added = block(t.0, t.1, base);
    let all = prog + added;
    let after = if t.0 is SaveOpen {
        groups + 1
    } else {
        groups
    };
    let code = code_for(t.0);
    assert(t.1 != Quantifier::ExactlyOne && t.1 != Quantifier::ZeroOrOne ==> code is Char);
    assert(t.1 == Quantifier::ZeroOrOne ==> code is Char || code is Frontier);
    assert(code is Save ==> added.len() == 1 && added[0] == code);
    assert forall|s: int| has_save(prog, s) implies has_save(all, s) by {
        let p = choose|p: int|
            0 <= p < prog.len() && #[trigger] prog[p] == CodeModel::Save(s as usize);
        assert(all[p] == prog[p]);
    }
    assert forall|p: int| 0 <= p < all.len() implies (#[trigger] all[p] matches CodeModel::Save(s)
        ==> s < 2 * after + 2) by {
        if p < base {
            assert(all[p] == prog[p]);
        } else {
            assert(all[p] == added[p - base]);
        }
    }
    assert forall|q: int| 0 <= q < all.len() implies #[trigger] group_ok(all, q) by {
        if q < base {
            assert(group_ok(prog, q));
            assert(instruction_ok(prog, slots, q));
            assert(all[q] == prog[q]);
            match prog[q] {
                CodeModel::Save(s) => {
                    if s % 2 == 1 {
                        let p = choose|p: int|
                            0 <= p < q && #[trigger] prog[p] == CodeModel::Save((s - 1) as usize);
                        assert(all[p] == prog[p]);
                        assert forall|p: int| q < p < all.len() implies #[trigger] all[p]
                            != CodeModel::Save((s - 1) as usize) by {
                            if p < base {
                                assert(all[p] == prog[p]);
                            } else {
                                assert(all[p] == added[p - base]);
                            }
                        }
                    }
                },
                CodeModel::Jmp(target) => {
                    assert forall|p: int| q < p < target && p < all.len() implies !(
                    #[trigger] all[p] is Save) by {
                        if p < base {
                            assert(all[p] == prog[p]);
                        } else {
                            assert(all[p] == added[p - base]);
                        }
                    }
                },
                CodeModel::Split { x, y } => {
                    assert forall|p: int| q < p < all.len() && (p < x || p < y) implies !(
                    #[trigger] all[p] is Save) by {
                        if p < base {
                            assert(all[p] == prog[p]);
                        } else {
                            assert(all[p] == added[p - base]);
                        }
                    }
                },
                _ => {},
            }
        } else {
            assert(all[q] == added[q - base]);
            match all[q] {
                CodeModel::Save(s) => {
                    assert(q == base);
                    if s % 2 == 1 {
                        assert(has_save(prog, s - 1));
                        let p = choose|p: int|
                            0 <= p < prog.len() && #[trigger] prog[p] == CodeModel::Save(
                                (s - 1) as usize,
                            );
                        assert(all[p] == prog[p]);
                    }
                },
                CodeModel::Jmp(target) => {
                    assert forall|p: int| q < p < target && p < all.len() implies !(
                    #[trigger] all[p] is Save) by {
                        assert(all[p] == added[p - base]);
                    }
                },
                CodeModel::Split { x, y } => {
                    assert forall|p: int| q < p < all.len() && (p < x || p < y) implies !(
                    #[trigger] all[p] is Save) by {
                        assert(all[p] == added[p - base]);
                    }
                },
                _ => {},
            }
        }
    }
    assert forall|n: int| 0 <= n <= after implies #[trigger] has_save(all, 2 * n) by {
        if n <= groups {
            assert(has_save(prog, 2 * n));
        } else {
            assert(all[base] == added[0]);
        }
    }
    if t.0 is SaveClose {
        assert(all[base] == added[0]);
    }
}

/// The body of one more pair is the body so far and the block of the pair.
pub proof fn lemma_body_step(tokens: Seq<(ElementModel, Quantifier)>, i: int)
    requires
        0 <= i < tokens.len(),
    ensures
        body(tokens.take(i + 1)) == body(tokens.take(i)) + block(
            tokens[i].0,
            tokens[i].1,
            1 + body(tokens.take(i)).len() as int,
        ),
        group_count(tokens.take(i + 1)) == match tokens[i].0 {
            ElementModel::SaveOpen(n) => if n > group_count(tokens.take(i)) {
                n
            } else {
                group_count(tokens.take(i))
            },
            _ => group_count(tokens.take(i)),
        },
{
    assert(tokens.take(i + 1).drop_last() =~= tokens.take(i));
    assert(tokens.take(i + 1).last() == tokens[i]);
}

/// A program that is in order and open at its end is well formed once
/// `Save(1)` and `Match` close it.
pub proof fn lemma_closing_makes_well_formed(prog: Seq<CodeModel>, slots: int)
    requires
        slots >= 2,
        well_formed_prefix(prog, slots),
    ensures
        well_formed(prog + seq![CodeModel::Save(1), CodeModel::Match], slots),
{
    let base = prog.len() as int;
    let tail = seq![CodeModel::Save(1), CodeModel::Match];
    let all = prog + tail;
    assert(all[base] == tail[0]);
    assert(all[base + 1] == tail[1]);
    assert(forall|u: int| 0 <= u < base ==> (jumps_back(all, u) <==> jumps_back(prog, u)));
    assert forall|pc: int| 0 <= pc < all.len() implies #[trigger] instruction_ok(
        all,
        slots,
        pc,
    ) by {
        if pc < base {
            assert(instruction_ok(prog, slots, pc));
            assert(all[pc] == prog[pc]);
            if pc >= 1 {
                assert(all[pc - 1] == prog[pc - 1]);
            }
        }
    }
    assert forall|pc: int| 0 <= pc < all.len() implies match #[trigger] all[pc] {
        CodeModel::Jmp(t) => t < all.len(),
        CodeModel::Split { x, y } => x < all.len() && y < all.len(),
        _ => true,
    } by {
        if pc < base {
            assert(instruction_ok(prog, slots, pc));
            assert(all[pc] == prog[pc]);
        }
    }
}

/// A program whose groups are in order so far, and all closed, has them in
/// order once `Save(1)` and `Match` close it.
pub proof fn lemma_closing_makes_grouped(prog: Seq<CodeModel>, groups: int, slots: int)
    requires
        prog.len() >= 1,
        prog[0] == CodeModel::Save(0),
        0 <= groups,
        grouped_prefix(prog, groups),
        well_formed_prefix(prog, slots),
        open_ended(prog),
        forall|n: int| 1 <= n <= groups ==> #[trigger] has_save(prog, 2 * n + 1),
    ensures
        grouped(prog + seq![CodeModel::Save(1), CodeModel::Match], 2 * groups + 2),
{
    let base = prog.len() as int;
    let tail = seq![CodeModel::Save(1), CodeModel::Match];
    let all = prog + tail;
    assert(all[base] == tail[0]);
    assert(all[base + 1] == tail[1]);
    assert(all[0] == prog[0]);
    assert forall|s: int| has_save(prog, s) implies has_save(all, s) by {
        let p = choose|p: int|
            0 <= p < prog.len() && #[trigger] prog[p] == CodeModel::Save(s as usize);
        assert(all[p] == prog[p]);
    }
    assert forall|q: int| 0 <= q < all.len() implies #[trigger] group_ok(all, q) by {
        if q < base {
            assert(group_ok(prog, q));
            assert(instruction_ok(prog, slots, q));
            assert(all[q] == prog[q]);
            match prog[q] {
                CodeModel::Save(s) => {
                    if s % 2 == 1 {
                        let p = choose|p: int|
                            0 <= p < q && #[trigger] prog[p] == CodeModel::Save((s - 1) as usize);
                        assert(all[p] == prog[p]);
                        assert forall|p: int| q < p < all.len() implies #[trigger] all[p]
                            != CodeModel::Save((s - 1) as usize) by {
                            if p < base {
                                assert(all[p] == prog[p]);
                            }
                        }
                    }
                },
                CodeModel::Jmp(target) => {
                    assert forall|p: int| q < p < target && p < all.len() implies !(
                    #[trigger] all[p] is Save) by {
                        assert(all[p] == prog[p]);
                    }
                },
                CodeModel::Split { x, y } => {
                    assert forall|p: int| q < p < all.len() && (p < x || p < y) implies !(
                    #[trigger] all[p] is Save) by {
                        assert(all[p] == prog[p]);
                    }
                },
                _ => {},
            }
        }
    }
    assert forall|pc: int| 0 <= pc < all.len() implies match #[trigger] all[pc] {
        CodeModel::Jmp(t) => t <= all.len() - 2,
        CodeModel::Split { x, y } => x <= all.len() - 2 && y <= all.len() - 2,
        CodeModel::Save(s) => s == 1 <==> pc == all.len() - 2,
        CodeModel::Match => pc == all.len() - 1,
        _ => true,
    } by {
        if pc < base {
            assert(instruction_ok(prog, slots, pc));
            assert(all[pc] == prog[pc]);
        }
    }
    assert forall|s: int| 0 <= s < 2 * groups + 2 implies #[trigger] has_save(all, s) by {
        if s % 2 == 0 {
            assert(has_save(prog, 2 * (s / 2)));
        } else if s == 1 {
            assert(all[base] == CodeModel::Save(1));
        } else {
            assert(has_save(prog, 2 * (s / 2) + 1));
        }
    }
}

/// What holds of the program for the first `i` pairs of `tokens`: it is in
/// order, open at its end, and has a `Save` for each end of a group met so
/// far.
pub open spec fn assembled_so_far(tokens: Seq<(ElementModel, Quantifier)>, i: int) -> bool {
    let prog = seq![CodeModel::Save(0)] + body(tokens.take(i));
    let count = group_count(tokens) as int;
    let so_far = group_count(tokens.take(i)) as int;
    &&& 1 <= prog.len() <= 1 + 3 * i
    &&& so_far <= count
    &&& well_formed_prefix(prog, 2 * count + 2)
    &&& open_ended(prog)
    &&& grouped_prefix(prog, so_far)
    &&& forall|k: int|
        0 <= k < i ==> ((#[trigger] tokens[k]).0 matches ElementModel::SaveClose(n) ==> has_save(
            prog,
            2 * n + 1,
        ))
}

/// The program for the pairs of a lexed pattern is in order after each of
/// its blocks.
pub proof fn lemma_assembled_so_far(tokens: Seq<(ElementModel, Quantifier)>, i: int)
    requires
        tokens_ok(tokens),
        tokens.len() <= max_pattern_len(),
        0 <= i <= tokens.len(),
    ensures
        assembled_so_far(tokens, i),
    decreases i,
{
    let count = group_count(tokens) as int;
    if i == 0 {
        let prog = seq![CodeModel::Save(0)] + body(tokens.take(0));
        assert(tokens.take(0) =~= Seq::empty());
        assert(prog =~= seq![CodeModel::Save(0)]);
        assert(instruction_ok(prog, 2 * count + 2, 0));
        assert(group_ok(prog, 0));
        assert(prog[0] == CodeModel::Save(0));
        assert(has_save(prog, 0));
    } else {
        lemma_assembled_so_far(tokens, i - 1);
        let before = seq![CodeModel::Save(0)] + body(tokens.take(i - 1));
        let so_far = group_count(tokens.take(i - 1)) as int;
        let t = tokens[i - 1];
        lemma_body_step(tokens, i - 1);
        assert(token_ok(t, count));
        assert(numbered(tokens, i - 1));
        lemma_block_keeps_order(before, t, count);
        lemma_block_keeps_groups(before, t, so_far, 2 * count + 2);
        let added = block(t.0, t.1, before.len() as int);
        assert(seq![CodeModel::Save(0)] + body(tokens.take(i)) =~= before + added);
    }
}

/// The program for the pairs of a lexed pattern can be run, and its groups
/// are in order.
pub proof fn lemma_assembled_is_runnable(tokens: Seq<(ElementModel, Quantifier)>)
    requires
        tokens_ok(tokens),
        tokens.len() <= max_pattern_len(),
    ensures
        well_formed(assemble(tokens), 2 * group_count(tokens) + 2),
        grouped(assemble(tokens), 2 * group_count(tokens) + 2),
{
    let count = group_count(tokens) as int;
    lemma_assembled_so_far(tokens, tokens.len() as int);
    assert(tokens.take(tokens.len() as int) =~= tokens);
    let prog = seq![CodeModel::Save(0)] + body(tokens);
    lemma_closing_makes_well_formed(prog, 2 * count + 2);
    assert forall|n: int| 1 <= n <= count implies #[trigger] has_save(prog, 2 * n + 1) by {
        assert(closes(tokens, n as usize));
        let k = choose|k: int|
            0 <= k < tokens.len() && (#[trigger] tokens[k]).0 == ElementModel::SaveClose(
                n as usize,
            );
        assert(tokens[k].0 matches ElementModel::SaveClose(m) && m == n);
    }
    lemma_closing_makes_grouped(prog, count, 2 * count + 2);
}

} // verus!
