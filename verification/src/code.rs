//! The bytecode that a pattern is compiled to, and what makes a program
//! well formed.

use crate::character_class::{CharacterClass, ClassModel};
use vstd::prelude::*;

verus! {

/// One instruction of the matching machine.
#[derive(Debug, PartialEq)]
pub enum Code {
    /// Takes one code point that the class accepts.
    Char(CharacterClass),
    /// Takes the text that the group of this number has captured.
    Captured(usize),
    /// Takes a span balanced between the two characters.
    Border(char, char),
    /// Holds where the class rejects the code point before and accepts the
    /// one at the position; takes nothing.
    Frontier(CharacterClass),
    /// Goes on at the given instruction.
    Jmp(usize),
    /// Goes on at `x`, and at `y` if that fails.
    Split { x: usize, y: usize },
    /// Records the position in the given slot.
    Save(usize),
    /// Accepts.
    Match,
}

/// The mathematical value of a [`Code`].
pub ghost enum CodeModel {
    Char(ClassModel),
    Captured(usize),
    Border(char, char),
    Frontier(ClassModel),
    Jmp(usize),
    Split { x: usize, y: usize },
    Save(usize),
    Match,
}

impl View for Code {
    type V = CodeModel;

    open spec fn view(&self) -> CodeModel {
        match self {
            Code::Char(k) => CodeModel::Char(k@),
            Code::Captured(n) => CodeModel::Captured(*n),
            Code::Border(x, y) => CodeModel::Border(*x, *y),
            Code::Frontier(k) => CodeModel::Frontier(k@),
            Code::Jmp(t) => CodeModel::Jmp(*t),
            Code::Split { x, y } => CodeModel::Split { x: *x, y: *y },
            Code::Save(s) => CodeModel::Save(*s),
            Code::Match => CodeModel::Match,
        }
    }
}

/// The models of the instructions in `s`, in the same order.
pub open spec fn code_models(s: Seq<Code>) -> Seq<CodeModel> {
    Seq::new(s.len(), |i: int| s[i]@)
}

/// Whether the instruction at `pc` can send the machine to itself or to an
/// earlier instruction.
pub open spec fn jumps_back(prog: Seq<CodeModel>, pc: int) -> bool {
    0 <= pc < prog.len() && match prog[pc] {
        CodeModel::Jmp(t) => t <= pc,
        CodeModel::Split { x, y } => x <= pc || y <= pc,
        _ => false,
    }
}

/// Whether `t` may be the target of a jump: it lies within the program or
/// just at its end, and what stands there does not jump back.
pub open spec fn target_ok(prog: Seq<CodeModel>, t: int) -> bool {
    0 <= t <= prog.len() && !jumps_back(prog, t)
}

/// What holds of each instruction of a well-formed program, and is kept as
/// instructions are added at the end. A target may be the place of the next
/// instruction to come.
pub open spec fn instruction_ok(prog: Seq<CodeModel>, slots: int, pc: int) -> bool {
    &&& match prog[pc] {
        CodeModel::Jmp(t) => target_ok(prog, t as int),
        CodeModel::Split { x, y } => target_ok(prog, x as int) && target_ok(prog, y as int),
        CodeModel::Save(s) => s < slots,
        _ => true,
    }
    &&& jumps_back(prog, pc) ==> pc >= 1 && prog[pc - 1] is Char
}

/// Every instruction written so far is in order.
pub open spec fn well_formed_prefix(prog: Seq<CodeModel>, slots: int) -> bool {
    forall|pc: int| 0 <= pc < prog.len() ==> #[trigger] instruction_ok(prog, slots, pc)
}

/// The program can be run with `slots` save slots.
///
/// It ends with `Match`, its jumps stay within it, and every `Save` has its
/// slot. An instruction that jumps back stands directly after one that
/// takes a code point and is never itself the target of a jump: so no cycle
/// of the program leaves the position in the subject where it is, which is
/// why every run ends.
pub open spec fn well_formed(prog: Seq<CodeModel>, slots: int) -> bool {
    &&& prog.len() >= 1
    &&& prog[prog.len() - 1] == CodeModel::Match
    &&& well_formed_prefix(prog, slots)
    &&& forall|pc: int|
        0 <= pc < prog.len() ==> match #[trigger] prog[pc] {
            CodeModel::Jmp(t) => t < prog.len(),
            CodeModel::Split { x, y } => x < prog.len() && y < prog.len(),
            _ => true,
        }
}

/// Whether some instruction of `prog` is `Save(s)`.
pub open spec fn has_save(prog: Seq<CodeModel>, s: int) -> bool {
    exists|p: int| 0 <= p < prog.len() && #[trigger] prog[p] == CodeModel::Save(s as usize)
}

/// What holds of the instruction at `q` in a program whose groups are in
/// order. If it records a position, it is the first instruction or the slot
/// is not slot 0; if it records the end of a group, an earlier instruction
/// records the beginning of that group and no later one does. If it jumps,
/// then not to the first instruction, and not forward over a `Save`.
pub open spec fn group_ok(prog: Seq<CodeModel>, q: int) -> bool {
    match prog[q] {
        CodeModel::Save(s) => {
            &&& s == 0 <==> q == 0
            &&& s % 2 == 1 ==> {
                &&& exists|p: int|
                    0 <= p < q && #[trigger] prog[p] == CodeModel::Save((s - 1) as usize)
                &&& forall|p: int|
                    q < p < prog.len() ==> #[trigger] prog[p] != CodeModel::Save((s - 1) as usize)
            }
        },
        CodeModel::Jmp(t) => {
            &&& 1 <= t
            &&& forall|p: int| q < p < t && p < prog.len() ==> !(#[trigger] prog[p] is Save)
        },
        CodeModel::Split { x, y } => {
            &&& 1 <= x
            &&& 1 <= y
            &&& forall|p: int|
                q < p < prog.len() && (p < x || p < y) ==> !(#[trigger] prog[p] is Save)
        },
        _ => true,
    }
}

/// Every instruction written so far is in order as to the groups, which are
/// `groups` in number, and the beginning of each is recorded.
pub open spec fn grouped_prefix(prog: Seq<CodeModel>, groups: int) -> bool {
    &&& forall|q: int| 0 <= q < prog.len() ==> #[trigger] group_ok(prog, q)
    &&& forall|p: int|
        0 <= p < prog.len() ==> (#[trigger] prog[p] matches CodeModel::Save(s) ==> s < 2 * groups
            + 2)
    &&& forall|n: int| 0 <= n <= groups ==> #[trigger] has_save(prog, 2 * n)
}

/// The program records a whole match and its groups in order.
///
/// It begins with `Save(0)` and ends with `Save(1)` and `Match`, which stand
/// nowhere else, and its jumps stay between them. The end of a group is
/// recorded after its beginning and the beginning is not recorded again
/// after that, no jump forward passes over a `Save`, and every one of the
/// `slots` slots has its `Save`.
pub open spec fn grouped(prog: Seq<CodeModel>, slots: int) -> bool {
    &&& prog.len() >= 3
    &&& prog[0] == CodeModel::Save(0)
    &&& prog[prog.len() - 2] == CodeModel::Save(1)
    &&& prog[prog.len() - 1] == CodeModel::Match
    &&& forall|pc: int|
        0 <= pc < prog.len() ==> match #[trigger] prog[pc] {
            CodeModel::Jmp(t) => t <= prog.len() - 2,
            CodeModel::Split { x, y } => x <= prog.len() - 2 && y <= prog.len() - 2,
            CodeModel::Save(s) => s == 1 <==> pc == prog.len() - 2,
            CodeModel::Match => pc == prog.len() - 1,
            _ => true,
        }
    &&& forall|q: int| 0 <= q < prog.len() ==> #[trigger] group_ok(prog, q)
    &&& forall|s: int| 0 <= s < slots ==> #[trigger] has_save(prog, s)
}

/// A number that grows along every step of a well-formed program that takes
/// no code point.
pub open spec fn progress(prog: Seq<CodeModel>, pc: int) -> int {
    if jumps_back(prog, pc) {
        match prog[pc] {
            CodeModel::Jmp(t) => 2 * t - 1,
            CodeModel::Split { x, y } => if x <= y {
                2 * x - 1
            } else {
                2 * y - 1
            },
            _ => 2 * pc,
        }
    } else {
        2 * pc
    }
}

/// How far the machine at `pc` is from the end of the program: this falls
/// with every step that takes no code point.
pub open spec fn distance(prog: Seq<CodeModel>, pc: int) -> int {
    2 * prog.len() - progress(prog, pc)
}

} // verus!
