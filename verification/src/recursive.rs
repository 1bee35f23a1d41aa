//! The matching machine: a backtracking interpreter of the bytecode.
//!
//! [`run`] says what the machine does from a given state; [`exec`] does it.

use crate::character_class::{CharacterClass, ClassModel};
use crate::code::{
    code_models, distance, group_ok, grouped, has_save, instruction_ok, well_formed, Code,
    CodeModel,
};
use crate::context::Context;
use crate::input::Input;
use vstd::prelude::*;

verus! {

/// A state of the machine: the instruction it is at, the position in the
/// subject (an index of code points), and the save slots. A slot holds
/// nothing until a position is recorded in it.
pub ghost struct Thread {
    pub pc: int,
    pub sp: int,
    pub saved: Seq<Option<usize>>,
}

/// Where the text that group `n` has captured ends when it is read again at
/// `sp`: nothing unless both ends of the group are recorded, in order, and
/// the subject holds the same code points at `sp`.
pub open spec fn backref_end(
    input: Seq<char>,
    saved: Seq<Option<usize>>,
    n: int,
    sp: int,
) -> Option<int> {
    if 0 <= n && 2 * n + 1 < saved.len() {
        match (saved[2 * n], saved[2 * n + 1]) {
            (Some(from), Some(to)) => if from <= to <= input.len() && 0 <= sp && sp + (to - from)
                <= input.len() && input.subrange(from as int, to as int) == input.subrange(
                sp,
                sp + (to - from),
            ) {
                Some(sp + (to - from))
            } else {
                None
            },
            _ => None,
        }
    } else {
        None
    }
}

/// Where a span ends that is read from `pos` on with `depth` brackets open:
/// after the `close` that brings the depth to zero. An `open` raises the
/// depth, a `close` lowers it.
pub open spec fn balance_end(
    input: Seq<char>,
    pos: int,
    depth: int,
    open: char,
    close: char,
) -> Option<int>
    decreases input.len() - pos,
{
    if pos < 0 || pos >= input.len() || depth <= 0 {
        None
    } else {
        let raised = if input[pos] == open {
            depth + 1
        } else {
            depth
        };
        let next = if input[pos] == close {
            raised - 1
        } else {
            raised
        };
        if next == 0 {
            Some(pos + 1)
        } else {
            balance_end(input, pos + 1, next, open, close)
        }
    }
}

/// Where the balanced span that begins at `sp` ends: nothing unless `open`
/// stands at `sp` and the subject closes every bracket opened from there.
pub open spec fn border_end(input: Seq<char>, sp: int, open: char, close: char) -> Option<int> {
    if 0 <= sp < input.len() && input[sp] == open {
        balance_end(input, sp + 1, 1, open, close)
    } else {
        None
    }
}

/// The code point at `sp`, or the null character outside the subject.
pub open spec fn char_or_null(input: Seq<char>, sp: int) -> char {
    if 0 <= sp < input.len() {
        input[sp]
    } else {
        '\0'
    }
}

/// Whether the class begins to hold at `sp`: it accepts the code point at
/// `sp` and rejects the one before.
pub open spec fn frontier_holds(class: ClassModel, input: Seq<char>, sp: int) -> bool {
    class.accepts(char_or_null(input, sp)) && !class.accepts(char_or_null(input, sp - 1))
}

/// A balanced span ends after where it began, and within the subject.
pub proof fn lemma_balance_end_bounds(
    input: Seq<char>,
    pos: int,
    depth: int,
    open: char,
    close: char,
)
    ensures
        balance_end(input, pos, depth, open, close) matches Some(end) ==> pos < end <= input.len(),
    decreases input.len() - pos,
{
    if pos < 0 || pos >= input.len() || depth <= 0 {
    } else {
        let raised = if input[pos] == open {
            depth + 1
        } else {
            depth
        };
        let next = if input[pos] == close {
            raised - 1
        } else {
            raised
        };
        if next != 0 {
            lemma_balance_end_bounds(input, pos + 1, next, open, close);
        }
    }
}

/// The state in which the machine accepts when it is started in the given
/// state, or nothing if it fails.
///
/// At a `Split` the machine goes the first way; only where that fails does
/// it go the second, from the same state. So of all the ways through the
/// program that accept, the machine takes the first in the order that the
/// `Split`s give.
pub open spec fn run(
    prog: Seq<CodeModel>,
    input: Seq<char>,
    pc: int,
    sp: int,
    saved: Seq<Option<usize>>,
) -> Option<Thread>
    decreases input.len() - sp, distance(prog, pc),
{
    if !(well_formed(prog, saved.len() as int) && 0 <= pc < prog.len() && 0 <= sp <= input.len()) {
        None
    } else {
        proof {
            assert(instruction_ok(prog, saved.len() as int, pc));
            assert(prog[pc] !is Match ==> instruction_ok(prog, saved.len() as int, pc + 1));
        }
        match prog[pc] {
            CodeModel::Char(class) => if sp < input.len() && class.accepts(input[sp]) {
                run(prog, input, pc + 1, sp + 1, saved)
            } else {
                None
            },
            CodeModel::Captured(n) => match backref_end(input, saved, n as int, sp) {
                Some(end) => run(prog, input, pc + 1, end, saved),
                None => None,
            },
            CodeModel::Border(open, close) => match border_end(input, sp, open, close) {
                Some(end) => {
                    proof {
                        lemma_balance_end_bounds(input, sp + 1, 1, open, close);
                    }
                    run(prog, input, pc + 1, end, saved)
                },
                None => None,
            },
            CodeModel::Frontier(class) => if frontier_holds(class, input, sp) {
                run(prog, input, pc + 1, sp, saved)
            } else {
                None
            },
            CodeModel::Jmp(t) => run(prog, input, t as int, sp, saved),
            CodeModel::Split { x, y } => match run(prog, input, x as int, sp, saved) {
                Some(t) => Some(t),
                None => run(prog, input, y as int, sp, saved),
            },
            CodeModel::Save(slot) => run(
                prog,
                input,
                pc + 1,
                sp,
                saved.update(slot as int, Some(#[verifier::truncate] (sp as usize))),
            ),
            CodeModel::Match => Some(Thread { pc, sp, saved }),
        }
    }
}

/// Where the machine accepts, it stands at a `Match`, not before the
/// position it started from, with as many slots as it had. In a program
/// with the frame of a compiled pattern that is the last instruction, and
/// once the machine is past the first instruction it leaves the beginning of
/// the whole match as it is.
pub proof fn lemma_run_advances(
    prog: Seq<CodeModel>,
    input: Seq<char>,
    pc: int,
    sp: int,
    saved: Seq<Option<usize>>,
)
    ensures
        run(prog, input, pc, sp, saved) matches Some(t) ==> {
            &&& 0 <= t.pc < prog.len() && prog[t.pc] is Match
            &&& sp <= t.sp <= input.len()
            &&& t.saved.len() == saved.len()
            &&& grouped(prog, saved.len() as int) ==> {
                &&& t.pc == prog.len() - 1
                &&& pc >= 1 ==> t.saved[0] == saved[0]
            }
        },
    decreases input.len() - sp, distance(prog, pc),
{
    let slots = saved.len() as int;
    if well_formed(prog, slots) && 0 <= pc < prog.len() && 0 <= sp <= input.len() {
        assert(instruction_ok(prog, slots, pc));
        assert(prog[pc] !is Match ==> instruction_ok(prog, slots, pc + 1));
        if grouped(prog, slots) {
            assert(group_ok(prog, pc));
        }
        match prog[pc] {
            CodeModel::Char(class) => {
                if sp < input.len() && class.accepts(input[sp]) {
                    lemma_run_advances(prog, input, pc + 1, sp + 1, saved);
                }
            },
            CodeModel::Captured(n) => {
                match backref_end(input, saved, n as int, sp) {
                    Some(end) => {
                        lemma_run_advances(prog, input, pc + 1, end, saved);
                    },
                    None => {},
                }
            },
            CodeModel::Border(open, close) => {
                match border_end(input, sp, open, close) {
                    Some(end) => {
                        lemma_balance_end_bounds(input, sp + 1, 1, open, close);
                        lemma_run_advances(prog, input, pc + 1, end, saved);
                    },
                    None => {},
                }
            },
            CodeModel::Frontier(class) => {
                if frontier_holds(class, input, sp) {
                    lemma_run_advances(prog, input, pc + 1, sp, saved);
                }
            },
            CodeModel::Jmp(t) => {
                lemma_run_advances(prog, input, t as int, sp, saved);
            },
            CodeModel::Split { x, y } => {
                lemma_run_advances(prog, input, x as int, sp, saved);
                if run(prog, input, x as int, sp, saved) is None {
                    lemma_run_advances(prog, input, y as int, sp, saved);
                }
            },
            CodeModel::Save(slot) => {
                lemma_run_advances(
                    prog,
                    input,
                    pc + 1,
                    sp,
                    saved.update(slot as int, Some(#[verifier::truncate] (sp as usize))),
                );
            },
            CodeModel::Match => {},
        }
    }
}

/// No position that is recorded lies before `low`.
pub open spec fn positions_from(saved: Seq<Option<usize>>, low: int) -> bool {
    forall|i: int| 0 <= i < saved.len() ==> (#[trigger] saved[i] matches Some(p) ==> low <= p)
}

/// The machine records no position before the one it started from.
pub proof fn lemma_run_stays_after(
    prog: Seq<CodeModel>,
    input: Seq<char>,
    pc: int,
    sp: int,
    saved: Seq<Option<usize>>,
    low: int,
)
    requires
        positions_from(saved, low),
        low <= sp,
        input.len() <= usize::MAX,
    ensures
        run(prog, input, pc, sp, saved) matches Some(t) ==> positions_from(t.saved, low),
    decreases input.len() - sp, distance(prog, pc),
{
    let slots = saved.len() as int;
    if well_formed(prog, slots) && 0 <= pc < prog.len() && 0 <= sp <= input.len() {
        assert(instruction_ok(prog, slots, pc));
        assert(prog[pc] !is Match ==> instruction_ok(prog, slots, pc + 1));
        match prog[pc] {
            CodeModel::Char(class) => {
                if sp < input.len() && class.accepts(input[sp]) {
                    lemma_run_stays_after(prog, input, pc + 1, sp + 1, saved, low);
                }
            },
            CodeModel::Captured(n) => {
                match backref_end(input, saved, n as int, sp) {
                    Some(end) => {
                        lemma_run_stays_after(prog, input, pc + 1, end, saved, low);
                    },
                    None => {},
                }
            },
            CodeModel::Border(open, close) => {
                match border_end(input, sp, open, close) {
                    Some(end) => {
                        lemma_balance_end_bounds(input, sp + 1, 1, open, close);
                        lemma_run_stays_after(prog, input, pc + 1, end, saved, low);
                    },
                    None => {},
                }
            },
            CodeModel::Frontier(class) => {
                if frontier_holds(class, input, sp) {
                    lemma_run_stays_after(prog, input, pc + 1, sp, saved, low);
                }
            },
            CodeModel::Jmp(t) => {
                lemma_run_stays_after(prog, input, t as int, sp, saved, low);
            },
            CodeModel::Split { x, y } => {
                lemma_run_stays_after(prog, input, x as int, sp, saved, low);
                if run(prog, input, x as int, sp, saved) is None {
                    lemma_run_stays_after(prog, input, y as int, sp, saved, low);
                }
            },
            CodeModel::Save(slot) => {
                lemma_run_stays_after(
                    prog,
                    input,
                    pc + 1,
                    sp,
                    saved.update(slot as int, Some(sp as usize)),
                    low,
                );
            },
            CodeModel::Match => {},
        }
    }
}

/// Whether slot `s` holds a position up to `sp` and, where it is the end of
/// a group, the beginning of the group is recorded and not after it.
pub open spec fn slot_recorded(saved: Seq<Option<usize>>, s: int, sp: int) -> bool {
    &&& 0 <= s < saved.len()
    &&& saved[s] matches Some(v)
    &&& v <= sp
    &&& s % 2 == 1 ==> (saved[s - 1] matches Some(a) && a <= v)
}

/// Whether the slots hold what the instructions before `pc` record: each
/// `Save` that stands before `pc` has its slot filled, and at the last
/// instruction the end of the whole match is the position itself.
pub open spec fn recorded(
    prog: Seq<CodeModel>,
    pc: int,
    sp: int,
    saved: Seq<Option<usize>>,
) -> bool {
    &&& forall|p: int|
        0 <= p < pc && p < prog.len() ==> (#[trigger] prog[p] matches CodeModel::Save(s)
            ==> slot_recorded(saved, s as int, sp))
    &&& pc == prog.len() - 1 ==> saved.len() >= 2 && saved[1] == Some(sp as usize)
}

/// Where the machine accepts, the slots hold what the instructions on its
/// way have recorded.
pub proof fn lemma_run_records(
    prog: Seq<CodeModel>,
    input: Seq<char>,
    pc: int,
    sp: int,
    saved: Seq<Option<usize>>,
)
    requires
        well_formed(prog, saved.len() as int),
        grouped(prog, saved.len() as int),
        recorded(prog, pc, sp, saved),
        0 <= pc < prog.len(),
        0 <= sp <= input.len() <= usize::MAX,
    ensures
        run(prog, input, pc, sp, saved) matches Some(t) ==> recorded(prog, t.pc, t.sp, t.saved),
    decreases input.len() - sp, distance(prog, pc),
{
    let slots = saved.len() as int;
    assert(instruction_ok(prog, slots, pc));
    assert(prog[pc] !is Match ==> instruction_ok(prog, slots, pc + 1));
    assert(group_ok(prog, pc));
    match prog[pc] {
        CodeModel::Char(class) => {
            if sp < input.len() && class.accepts(input[sp]) {
                lemma_run_records(prog, input, pc + 1, sp + 1, saved);
            }
        },
        CodeModel::Captured(n) => {
            match backref_end(input, saved, n as int, sp) {
                Some(end) => {
                    lemma_run_records(prog, input, pc + 1, end, saved);
                },
                None => {},
            }
        },
        CodeModel::Border(open, close) => {
            match border_end(input, sp, open, close) {
                Some(end) => {
                    lemma_balance_end_bounds(input, sp + 1, 1, open, close);
                    lemma_run_records(prog, input, pc + 1, end, saved);
                },
                None => {},
            }
        },
        CodeModel::Frontier(class) => {
            if frontier_holds(class, input, sp) {
                lemma_run_records(prog, input, pc + 1, sp, saved);
            }
        },
        CodeModel::Jmp(t) => {
            lemma_run_records(prog, input, t as int, sp, saved);
        },
        CodeModel::Split { x, y } => {
            lemma_run_records(prog, input, x as int, sp, saved);
            if run(prog, input, x as int, sp, saved) is None {
                lemma_run_records(prog, input, y as int, sp, saved);
            }
        },
        CodeModel::Save(slot) => {
            let next = saved.update(slot as int, Some(sp as usize));
            assert forall|p: int| 0 <= p < pc + 1 && p < prog.len() implies (
            #[trigger] prog[p] matches CodeModel::Save(s) ==> slot_recorded(
                next,
                s as int,
                sp,
            )) by {
                if let CodeModel::Save(s) = prog[p] {
                    if p < pc {
                        assert(slot_recorded(saved, s as int, sp));
                        assert(group_ok(prog, p));
                    } else {
                        if s % 2 == 1 {
                            let before = choose|q: int|
                                0 <= q < pc && #[trigger] prog[q] == CodeModel::Save(
                                    (s - 1) as usize,
                                );
                            assert(slot_recorded(saved, s - 1, sp));
                        }
                    }
                }
            }
            lemma_run_records(prog, input, pc + 1, sp, next);
        },
        CodeModel::Match => {},
    }
}

/// The slots before anything is recorded: `slots` of them, all empty.
pub open spec fn fresh(slots: int) -> Seq<Option<usize>> {
    Seq::new(slots as nat, |i: int| None::<usize>)
}

/// What the machine finds when it is started at the beginning of the
/// program, at the code point `start`, with empty slots.
pub open spec fn attempt(prog: Seq<CodeModel>, input: Seq<char>, start: int, slots: int) -> Option<
    Thread,
> {
    run(prog, input, 0, start, fresh(slots))
}

/// An accepted attempt has recorded both ends of every group, the
/// beginning not after the end, and neither before the position where the
/// attempt began or after the one where the machine accepted. The whole
/// match begins where the attempt began and ends where the machine
/// accepted.
pub proof fn lemma_attempt_records(prog: Seq<CodeModel>, input: Seq<char>, start: int, slots: int)
    requires
        well_formed(prog, slots),
        grouped(prog, slots),
        slots <= usize::MAX,
        0 <= start <= input.len() <= usize::MAX,
    ensures
        attempt(prog, input, start, slots) matches Some(t) ==> {
            &&& start <= t.sp <= input.len()
            &&& t.saved.len() == slots
            &&& t.saved[0] == Some(start as usize)
            &&& t.saved[1] == Some(t.sp as usize)
            &&& forall|s: int| 0 <= s < slots ==> #[trigger] slot_recorded(t.saved, s, t.sp)
            &&& positions_from(t.saved, start)
        },
{
    let empty = fresh(slots);
    lemma_run_stays_after(prog, input, 0, start, empty, start);
    assert(instruction_ok(prog, slots, 0));
    assert(instruction_ok(prog, slots, 1));
    let first = empty.update(0, Some(start as usize));
    assert(run(prog, input, 0, start, empty) == run(prog, input, 1, start, first));
    assert(group_ok(prog, 0));
    assert(recorded(prog, 1, start, first));
    lemma_run_records(prog, input, 1, start, first);
    lemma_run_advances(prog, input, 1, start, first);
    if let Some(t) = attempt(prog, input, start, slots) {
        assert forall|s: int| 0 <= s < slots implies #[trigger] slot_recorded(t.saved, s, t.sp) by {
            assert(has_save(prog, s));
            let p = choose|p: int|
                0 <= p < prog.len() && #[trigger] prog[p] == CodeModel::Save(s as usize);
            assert(p < prog.len() - 1);
        }
    }
}

/// Reads again at `sp` the text that group `n` has captured: see
/// [`backref_end`].
pub fn captured_end(input: &Input, saved: &Vec<Option<usize>>, n: usize, sp: usize) -> (r: Option<
    usize,
>)
    requires
        input.wf(),
    ensures
        match backref_end(input@, saved@, n as int, sp as int) {
            Some(end) => r == Some(end as usize) && sp <= end <= input@.len(),
            None => r is None,
        },
{
    if n >= saved.len() / 2 {
        return None;
    }
    let (from, to) = match (saved[2 * n], saved[2 * n + 1]) {
        (Some(from), Some(to)) => (from, to),
        _ => {
            return None;
        },
    };
    let len = input.len();
    if from > to || to > len || sp > len {
        return None;
    }
    let count = to - from;
    if count > len - sp {
        return None;
    }
    let mut i: usize = 0;
    while i < count
        invariant
            input.wf(),
            len == input@.len(),
            2 * n + 1 < saved@.len(),
            saved@[2 * n] == Some(from),
            saved@[2 * n + 1] == Some(to),
            from <= to <= len,
            count == to - from,
            sp + count <= len,
            i <= count,
            forall|k: int|
                0 <= k < i ==> #[trigger] input@.subrange(from as int, to as int)[k]
                    == input@.subrange(sp as int, sp + count)[k],
        decreases count - i,
    {
        match (input.get_char(from + i), input.get_char(sp + i)) {
            (Some(a), Some(b)) => {
                if a != b {
                    assert(input@.subrange(from as int, to as int)[i as int] != input@.subrange(
                        sp as int,
                        sp + count,
                    )[i as int]);
                    return None;
                }
            },
            _ => {
                return None;
            },
        }
        i += 1;
    }
    assert(input@.subrange(from as int, to as int) =~= input@.subrange(sp as int, sp + count));
    Some(sp + count)
}

/// Reads the balanced span that begins at `sp`: see [`border_end`].
pub fn balanced_end(input: &Input, sp: usize, open: char, close: char) -> (r: Option<usize>)
    requires
        input.wf(),
    ensures
        match border_end(input@, sp as int, open, close) {
            Some(end) => r == Some(end as usize) && sp < end <= input@.len(),
            None => r is None,
        },
{
    match input.get_char(sp) {
        Some(c) => {
            if c != open {
                return None;
            }
        },
        None => {
            return None;
        },
    }
    let mut counter: usize = 1;
    let mut pos: usize = sp + 1;
    loop
        invariant
            input.wf(),
            sp < pos <= input@.len(),
            1 <= counter <= pos - sp,
            border_end(input@, sp as int, open, close) == balance_end(
                input@,
                pos as int,
                counter as int,
                open,
                close,
            ),
        decreases input@.len() - pos,
    {
        match input.get_char(pos) {
            None => {
                return None;
            },
            Some(c) => {
                if open == c {
                    counter += 1;
                }
                if close == c {
                    counter -= 1;
                }
                pos += 1;
                if counter == 0 {
                    return Some(pos);
                }
            },
        }
    }
}

/// Tests whether `class` begins to hold at `sp`: see [`frontier_holds`].
pub fn at_frontier(class: &CharacterClass, input: &Input, sp: usize) -> (b: bool)
    requires
        input.wf(),
    ensures
        b == frontier_holds(class@, input@, sp as int),
{
    let prev = if sp == 0 {
        '\0'
    } else {
        match input.get_char(sp - 1) {
            Some(c) => c,
            None => '\0',
        }
    };
    let current = match input.get_char(sp) {
        Some(c) => c,
        None => '\0',
    };
    class.is_matched(&current) && !class.is_matched(&prev)
}

/// Runs the machine from the state it is in.
///
/// Returns whether it accepts. If it does, it is left in the accepting
/// state that [`run`] gives; if it does not, it is left as it was.
pub fn exec(ctx: &mut Context) -> (accepted: bool)
    requires
        old(ctx).wf(),
        old(ctx).program_counter < old(ctx).program@.len(),
        old(ctx).subj_pointer <= old(ctx).input@.len(),
    ensures
        final(ctx).wf(),
        final(ctx).program == old(ctx).program,
        final(ctx).input == old(ctx).input,
        match run(
            code_models(old(ctx).program@),
            old(ctx).input@,
            old(ctx).program_counter as int,
            old(ctx).subj_pointer as int,
            old(ctx).saved@,
        ) {
            Some(t) => accepted && final(ctx).thread() == t,
            None => !accepted && final(ctx).thread() == old(ctx).thread(),
        },
    decreases
        old(ctx).input@.len() - old(ctx).subj_pointer,
        distance(code_models(old(ctx).program@), old(ctx).program_counter as int),
{
    let program = ctx.program;
    let start_pc = ctx.program_counter;
    let start_sp = ctx.subj_pointer;
    let ghost prog = code_models(program@);
    let ghost input = ctx.input@;
    let ghost saved = ctx.saved@;
    loop
        invariant
            ctx.wf(),
            ctx.program == old(ctx).program,
            ctx.input == old(ctx).input,
            program == ctx.program,
            prog == code_models(program@),
            input == ctx.input@,
            saved == ctx.saved@,
            saved == old(ctx).saved@,
            start_pc == old(ctx).program_counter,
            start_sp == old(ctx).subj_pointer,
            ctx.program_counter < program@.len(),
            start_sp <= ctx.subj_pointer <= input.len(),
            ctx.subj_pointer == start_sp ==> distance(prog, ctx.program_counter as int) <= distance(
                prog,
                start_pc as int,
            ),
            run(prog, input, ctx.program_counter as int, ctx.subj_pointer as int, saved) == run(
                prog,
                input,
                start_pc as int,
                start_sp as int,
                saved,
            ),
        decreases input.len() - ctx.subj_pointer, distance(prog, ctx.program_counter as int),
    {
        let pc = ctx.program_counter;
        let sp = ctx.subj_pointer;
        proof {
            assert(instruction_ok(prog, saved.len() as int, pc as int));
            assert(prog[pc as int] !is Match ==> instruction_ok(
                prog,
                saved.len() as int,
                pc + 1,
            ));
            assert(prog[pc as int] == program@[pc as int]@);
        }
        match &program[pc] {
            Code::Char(c) => {
                let taken = match ctx.input.get_char(sp) {
                    Some(other) => c.is_matched(&other),
                    None => false,
                };
                if taken {
                    ctx.program_counter = pc + 1;
                    ctx.subj_pointer = sp + 1;
                } else {
                    ctx.program_counter = start_pc;
                    ctx.subj_pointer = start_sp;
                    return false;
                }
            },
            Code::Captured(n) => {
                match captured_end(&ctx.input, &ctx.saved, *n, sp) {
                    Some(end) => {
                        ctx.subj_pointer = end;
                        ctx.program_counter = pc + 1;
                    },
                    None => {
                        ctx.program_counter = start_pc;
                        ctx.subj_pointer = start_sp;
                        return false;
                    },
                }
            },
            Code::Border(x, y) => {
                match balanced_end(&ctx.input, sp, *x, *y) {
                    Some(end) => {
                        ctx.subj_pointer = end;
                        ctx.program_counter = pc + 1;
                    },
                    None => {
                        ctx.program_counter = start_pc;
                        ctx.subj_pointer = start_sp;
                        return false;
                    },
                }
            },
            Code::Frontier(s) => {
                if at_frontier(s, &ctx.input, sp) {
                    ctx.program_counter = pc + 1;
                } else {
                    ctx.program_counter = start_pc;
                    ctx.subj_pointer = start_sp;
                    return false;
                }
            },
            Code::Jmp(x) => {
                ctx.program_counter = *x;
            },
            Code::Split { x, y } => {
                ctx.program_counter = *x;
                if exec(ctx) {
                    return true;
                } else {
                    ctx.program_counter = *y;
                }
            },
            Code::Save(x) => {
                let slot = *x;
                let old_value = ctx.saved[slot];
                ctx.saved.set(slot, Some(sp));
                ctx.program_counter = pc + 1;
                if exec(ctx) {
                    return true;
                } else {
                    ctx.saved.set(slot, old_value);
                    assert(ctx.saved@ =~= saved);
                    ctx.program_counter = start_pc;
                    ctx.subj_pointer = start_sp;
                    return false;
                }
            },
            Code::Match => {
                return true;
            },
        }
    }
}

} // verus!
