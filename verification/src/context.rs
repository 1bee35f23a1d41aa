//! The state that the matching machine works on.

use crate::code::{code_models, well_formed, Code};
use crate::input::{byte_offset, Input};
use crate::recursive::{fresh, slot_recorded, Thread};
use core::ops::Range;
use vstd::prelude::*;

verus! {

/// A program, a subject, and the state of the machine between them.
#[derive(Debug)]
pub struct Context<'a> {
    pub program: &'a [Code],
    pub input: Input<'a>,
    /// The instruction that is next.
    pub program_counter: usize,
    /// The code point that is next.
    pub subj_pointer: usize,
    /// The save slots: slots `2n` and `2n + 1` hold where group `n` begins
    /// and ends, and group 0 is the whole match. A slot holds nothing until
    /// the machine records a position in it.
    pub saved: Vec<Option<usize>>,
}

/// The two ends of group `n` as the slots hold them, if both are recorded.
pub open spec fn saved_ends(saved: Seq<Option<usize>>, n: int) -> Option<(usize, usize)> {
    if 0 <= n && 2 * n + 1 < saved.len() {
        match (saved[2 * n], saved[2 * n + 1]) {
            (Some(from), Some(to)) => Some((from, to)),
            _ => None,
        }
    } else {
        None
    }
}

/// Every position that is recorded lies within a subject of `len` code
/// points.
pub open spec fn positions_within(saved: Seq<Option<usize>>, len: int) -> bool {
    forall|i: int| 0 <= i < saved.len() ==> (#[trigger] saved[i] matches Some(p) ==> p <= len)
}

/// The two ends of group `n` in bytes of the subject `input`, where the
/// slots hold them in code points.
pub open spec fn span_of(input: Seq<char>, saved: Seq<Option<usize>>, n: int) -> (int, int) {
    (
        byte_offset(input, saved[2 * n]->0 as int),
        byte_offset(input, saved[2 * n + 1]->0 as int),
    )
}

/// The ends of the whole match and of the groups, in bytes of the subject.
pub open spec fn spans(input: Seq<char>, saved: Seq<Option<usize>>) -> Seq<(int, int)> {
    Seq::new(saved.len() / 2, |n: int| span_of(input, saved, n))
}

/// The ranges in `ranges` as pairs of their ends.
pub open spec fn range_ends(ranges: Seq<Range<usize>>) -> Seq<(int, int)> {
    Seq::new(ranges.len(), |k: int| (ranges[k].start as int, ranges[k].end as int))
}

impl<'a> Context<'a> {
    /// The subject is indexed, the program can be run with the slots there
    /// are, and what the slots hold are positions in the subject.
    pub open spec fn wf(&self) -> bool {
        &&& self.input.wf()
        &&& well_formed(code_models(self.program@), self.saved@.len() as int)
        &&& positions_within(self.saved@, self.input@.len() as int)
    }

    /// The state of the machine.
    pub open spec fn thread(&self) -> Thread {
        Thread {
            pc: self.program_counter as int,
            sp: self.subj_pointer as int,
            saved: self.saved@,
        }
    }

    /// The machine at the beginning of `program` and of `input`, with two
    /// empty slots for each of `captures` groups and for the whole match.
    pub fn new(program: &'a [Code], input: Input<'a>, captures: usize) -> (ctx: Self)
        requires
            input.wf(),
            2 * captures + 2 <= usize::MAX,
            well_formed(code_models(program@), 2 * captures + 2),
        ensures
            ctx.wf(),
            ctx.program == program,
            ctx.input == input,
            ctx.program_counter == 0,
            ctx.subj_pointer == 0,
            ctx.saved@ == fresh(2 * captures + 2),
    {
        let slots = 2 * captures + 2;
        let mut saved: Vec<Option<usize>> = Vec::new();
        while saved.len() < slots
            invariant
                saved@.len() <= slots,
                saved@ == Seq::new(saved@.len(), |i: int| None::<usize>),
            decreases slots - saved@.len(),
        {
            saved.push(None);
        }
        assert(saved@ =~= fresh(2 * captures + 2));
        Context { program, input, program_counter: 0, subj_pointer: 0, saved }
    }

    /// Puts the machine at the beginning of the program and at the code
    /// point `start`, with empty slots.
    pub fn restart(&mut self, start: usize)
        requires
            old(self).wf(),
        ensures
            final(self).wf(),
            final(self).program == old(self).program,
            final(self).input == old(self).input,
            final(self).program_counter == 0,
            final(self).subj_pointer == start,
            final(self).saved@ == fresh(old(self).saved@.len() as int),
    {
        self.program_counter = 0;
        self.subj_pointer = start;
        let n = self.saved.len();
        let mut i: usize = 0;
        while i < n
            invariant
                i <= n,
                n == self.saved@.len(),
                n == old(self).saved@.len(),
                self.program == old(self).program,
                self.input == old(self).input,
                self.program_counter == 0,
                self.subj_pointer == start,
                forall|k: int| 0 <= k < i ==> self.saved@[k] is None,
            decreases n - i,
        {
            self.saved.set(i, None);
            i += 1;
        }
        assert(self.saved@ =~= fresh(n as int));
    }

    /// Whether the machine has passed the last code point of the subject.
    pub fn exhausted(&self) -> (b: bool)
        requires
            self.input.wf(),
        ensures
            b == (self.subj_pointer >= self.input@.len()),
    {
        self.subj_pointer >= self.input.len()
    }

    /// Where group `n` begins and ends, in code points, if both ends are
    /// recorded.
    pub fn saved_range(&self, n: usize) -> (r: Option<Range<usize>>)
        ensures
            match saved_ends(self.saved@, n as int) {
                Some((from, to)) => r matches Some(range) && range.start == from && range.end == to,
                None => r is None,
            },
    {
        if n >= self.saved.len() / 2 {
            return None;
        }
        match (self.saved[2 * n], self.saved[2 * n + 1]) {
            (Some(from), Some(to)) => Some(from..to),
            _ => None,
        }
    }

    /// Where group `n` begins and ends, in bytes of the subject, if both
    /// ends are recorded.
    pub fn captured_range(&self, n: usize) -> (r: Option<Range<usize>>)
        requires
            self.wf(),
        ensures
            match saved_ends(self.saved@, n as int) {
                Some((from, to)) => r matches Some(range) && range.start == byte_offset(
                    self.input@,
                    from as int,
                ) && range.end == byte_offset(self.input@, to as int),
                None => r is None,
            },
    {
        match self.saved_range(n) {
            Some(range) => {
                assert(self.saved@[2 * n] == Some(range.start));
                assert(self.saved@[2 * n + 1] == Some(range.end));
                match (
                    self.input.get_byte_index(range.start),
                    self.input.get_byte_index(range.end),
                ) {
                    (Some(begin), Some(end)) => Some(begin..end),
                    _ => None,
                }
            },
            None => None,
        }
    }
}

impl<'a> Context<'a> {
    /// The ranges of the whole match and of every group, in bytes of the
    /// subject, after the machine has accepted.
    pub fn captured_ranges(&self) -> (ranges: Vec<Range<usize>>)
        requires
            self.wf(),
            forall|s: int|
                0 <= s < self.saved@.len() ==> #[trigger] slot_recorded(
                    self.saved@,
                    s,
                    self.input@.len() as int,
                ),
        ensures
            range_ends(ranges@) == spans(self.input@, self.saved@),
    {
        let groups = self.saved.len() / 2;
        let mut ranges: Vec<Range<usize>> = Vec::new();
        let mut n: usize = 0;
        while n < groups
            invariant
                self.wf(),
                groups == self.saved@.len() / 2,
                n <= groups,
                ranges@.len() == n,
                forall|s: int|
                    0 <= s < self.saved@.len() ==> #[trigger] slot_recorded(
                        self.saved@,
                        s,
                        self.input@.len() as int,
                    ),
                forall|k: int|
                    0 <= k < n ==> (#[trigger] ranges@[k]).start == span_of(
                        self.input@,
                        self.saved@,
                        k,
                    ).0 && ranges@[k].end == span_of(self.input@, self.saved@, k).1,
            decreases groups - n,
        {
            proof {
                assert(slot_recorded(self.saved@, 2 * n, self.input@.len() as int));
                assert(slot_recorded(self.saved@, 2 * n + 1, self.input@.len() as int));
            }
            match self.captured_range(n) {
                Some(range) => {
                    ranges.push(range);
                },
                None => {
                    vstd::pervasive::unreached::<()>();
                },
            }
            n += 1;
        }
        assert(range_ends(ranges@) =~= spans(self.input@, self.saved@));
        ranges
    }
}

} // verus!
