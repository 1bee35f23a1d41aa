//! What holds of every pattern and every subject.
//!
//! The laws are stated over the models that the contracts of
//! [`compile`](crate::regex::compile) and
//! [`Regex::match_all`](crate::regex::Regex::match_all) speak of.

use crate::assemble::{
    assemble, block, body, lemma_assembled_is_runnable, lemma_assembled_so_far, max_pattern_len,
};
use crate::code::{distance, grouped, instruction_ok, well_formed, CodeModel};
use crate::context::{span_of, spans};
use crate::input::{byte_offset, lemma_byte_offset_is_boundary, lemma_byte_offset_monotone};
use crate::lexer::{
    closes, group_count, lemma_lexed_is_ok, lex_spec, numbered, token_ok, tokens_ok, ElementModel,
    Quantifier,
};
use crate::recursive::{
    attempt, backref_end, fresh, lemma_attempt_records, lemma_run_advances, positions_from, run,
    slot_recorded, Thread,
};
use crate::regex::{
    accepted_at, compile_spec, is_match_list, next_start, pattern_body, scan, Regex, RegexModel,
};
use crate::Match;
use vstd::prelude::*;
use vstd::string::StringSliceAdditionalSpecFns;
use vstd::utf8::is_char_boundary;

verus! {

/// What holds of the state `t` in which a pattern with `captures` groups
/// has accepted in a subject of `len` code points, the search having
/// started at `from`: the whole match lies between `from` and `len`, it ends
/// where the machine stood, and every group has both ends recorded, the
/// beginning not after the end and both within the whole match.
pub open spec fn accepted_ok(t: Thread, from: int, len: int, m: RegexModel) -> bool {
    &&& t.saved.len() == 2 * m.captures + 2
    &&& t.saved[0] matches Some(a) && t.saved[1] matches Some(b) && from <= a <= b <= len && b
        == t.sp
    &&& m.anchor_end ==> t.sp == len
    &&& forall|s: int| 0 <= s < t.saved.len() ==> #[trigger] slot_recorded(t.saved, s, t.sp)
    &&& positions_from(t.saved, t.saved[0]->0 as int)
}

/// The matches that a search finds lie one after the other: each is in
/// order ([`accepted_ok`]), none begins before the search did, and none
/// begins before the one before it has ended. An anchored pattern is found
/// at most once, and then where the search began.
pub proof fn lemma_scan_in_order(m: RegexModel, input: Seq<char>, start: int)
    requires
        m.runnable(),
        0 <= start,
        input.len() <= usize::MAX,
    ensures
        forall|k: int|
            0 <= k < scan(m, input, start).len() ==> accepted_ok(
                #[trigger] scan(m, input, start)[k],
                start,
                input.len() as int,
                m,
            ),
        forall|k: int|
            0 <= k && k + 1 < scan(m, input, start).len() ==> (#[trigger] scan(
                m,
                input,
                start,
            )[k + 1]).saved[0]->0 >= scan(m, input, start)[k].saved[1]->0,
        m.anchor_start ==> scan(m, input, start).len() <= 1 && (scan(m, input, start).len() == 1
            ==> scan(m, input, start)[0].saved[0] == Some(start as usize)),
    decreases input.len() - start,
{
    let all = scan(m, input, start);
    let len = input.len() as int;
    if start < len {
        lemma_attempt_records(m.program, input, start, 2 * m.captures + 2);
        match accepted_at(m, input, start) {
            Some(t) => {
                assert(accepted_ok(t, start, len, m));
                if !m.anchor_start {
                    let next = next_start(start, t.sp);
                    let rest = scan(m, input, next);
                    lemma_scan_in_order(m, input, next);
                    assert(all == seq![t] + rest);
                    assert forall|k: int| 0 <= k < all.len() implies accepted_ok(
                        #[trigger] all[k],
                        start,
                        len,
                        m,
                    ) by {
                        if k > 0 {
                            assert(all[k] == rest[k - 1]);
                            assert(accepted_ok(rest[k - 1], next, len, m));
                        }
                    }
                    assert forall|k: int| 0 <= k && k + 1 < all.len() implies (#[trigger] all[k
                        + 1]).saved[0]->0 >= all[k].saved[1]->0 by {
                        assert(all[k + 1] == rest[k]);
                        assert(accepted_ok(rest[k], next, len, m));
                        if k > 0 {
                            assert(all[k] == rest[k - 1]);
                            assert(rest[k - 1 + 1] == rest[k]);
                        }
                    }
                } else {
                    assert(all =~= seq![t]);
                }
            },
            None => {
                if !m.anchor_start {
                    lemma_scan_in_order(m, input, start + 1);
                    assert forall|k: int| 0 <= k < all.len() implies accepted_ok(
                        #[trigger] all[k],
                        start,
                        len,
                        m,
                    ) by {
                        assert(accepted_ok(all[k], start + 1, len, m));
                    }
                }
            },
        }
    }
}

/// Whatever compiles can be run: the program is well formed for the slots
/// of its groups, and the groups are in order.
pub proof fn law_compiled_is_runnable(re: Seq<char>)
    requires
        re.len() <= max_pattern_len(),
    ensures
        compile_spec(re) matches Ok(m) ==> m.runnable(),
{
    lemma_lexed_is_ok(pattern_body(re));
    if let Ok(tokens) = lex_spec(pattern_body(re)) {
        lemma_assembled_is_runnable(tokens);
    }
}

/// Progress: after an attempt the search goes on at a later code point,
/// whether the attempt has matched or not and however short the match, so
/// that a search makes no more attempts than the subject has code points.
pub proof fn law_search_moves_on(start: int, end: int)
    ensures
        start < next_start(start, end),
        start < end ==> next_start(start, end) == end,
{
}

/// Determinism: what a pattern compiles to and what it finds in a subject
/// depend on the pattern and the subject alone. Two compilations of one
/// pattern have the same program, and two searches find the same ranges.
pub proof fn law_determinism(
    re: Seq<char>,
    first: Regex,
    second: Regex,
    subj: &str,
    found_first: Seq<Match>,
    found_second: Seq<Match>,
)
    requires
        compile_spec(re) == Ok::<RegexModel, crate::error::CompileError>(first@),
        compile_spec(re) == Ok::<RegexModel, crate::error::CompileError>(second@),
        is_match_list(found_first, first@, subj),
        is_match_list(found_second, second@, subj),
    ensures
        first@ == second@,
        found_first.len() == found_second.len(),
        forall|k: int|
            0 <= k < found_first.len() ==> (#[trigger] found_first[k])@ == found_second[k]@
                && found_first[k].subj == found_second[k].subj,
{
}

/// Alignment: every range of a match begins and ends at a character
/// boundary of the subject.
pub proof fn law_ranges_on_boundaries(m: Match, k: int)
    requires
        m.wf(),
        0 <= k < m.captures@.len(),
    ensures
        is_char_boundary(m.subj.spec_bytes(), m.captures@[k].start as int),
        is_char_boundary(m.subj.spec_bytes(), m.captures@[k].end as int),
{
    let s = m.subj@;
    let start = m.captures@[k].start as int;
    let end = m.captures@[k].end as int;
    let i = choose|i: int| 0 <= i <= s.len() && #[trigger] byte_offset(s, i) == start;
    let j = choose|j: int| 0 <= j <= s.len() && #[trigger] byte_offset(s, j) == end;
    lemma_byte_offset_is_boundary(s, i);
    lemma_byte_offset_is_boundary(s, j);
}

/// The byte ranges of one match of a search: the whole match first, which
/// begins where the machine began and ends where it accepted.
proof fn lemma_whole_match(m: RegexModel, subj: &str, found: Seq<Match>, k: int)
    requires
        m.runnable(),
        subj@.len() <= usize::MAX,
        is_match_list(found, m, subj),
        0 <= k < found.len(),
    ensures
        found[k]@.len() == m.captures + 1,
        accepted_ok(scan(m, subj@, 0)[k], 0, subj@.len() as int, m),
        forall|n: int|
            0 <= n <= m.captures ==> (#[trigger] found[k]@[n]) == span_of(
                subj@,
                scan(m, subj@, 0)[k].saved,
                n,
            ),
{
    lemma_scan_in_order(m, subj@, 0);
    let t = scan(m, subj@, 0)[k];
    assert(accepted_ok(t, 0, subj@.len() as int, m));
    assert(found[k]@ == spans(subj@, t.saved));
}

/// Non-overlap: of two matches that follow each other in a search, the
/// second does not begin before the first has ended.
pub proof fn law_matches_do_not_overlap(m: RegexModel, subj: &str, found: Seq<Match>, i: int)
    requires
        m.runnable(),
        subj@.len() <= usize::MAX,
        is_match_list(found, m, subj),
        0 <= i,
        i + 1 < found.len(),
    ensures
        found[i]@.len() > 0,
        found[i + 1]@.len() > 0,
        found[i]@[0].1 <= found[i + 1]@[0].0,
{
    lemma_scan_in_order(m, subj@, 0);
    lemma_whole_match(m, subj, found, i);
    lemma_whole_match(m, subj, found, i + 1);
    let all = scan(m, subj@, 0);
    let end = all[i].saved[1]->0 as int;
    let begin = all[i + 1].saved[0]->0 as int;
    assert(begin >= end);
    lemma_byte_offset_monotone(subj@, end, begin);
    assert(found[i]@[0] == span_of(subj@, all[i].saved, 0));
    assert(found[i + 1]@[0] == span_of(subj@, all[i + 1].saved, 0));
}

/// Anchor at the start: a pattern that begins with `^` is found at most
/// once, and then at byte 0.
pub proof fn law_anchored_start(m: RegexModel, subj: &str, found: Seq<Match>)
    requires
        m.runnable(),
        subj@.len() <= usize::MAX,
        is_match_list(found, m, subj),
        m.anchor_start,
    ensures
        found.len() <= 1,
        found.len() == 1 ==> found[0]@.len() > 0 && found[0]@[0].0 == 0,
{
    lemma_scan_in_order(m, subj@, 0);
    if found.len() == 1 {
        lemma_whole_match(m, subj, found, 0);
        lemma_byte_offset_monotone(subj@, 0, 0);
        assert(subj@.take(0) =~= Seq::<char>::empty());
        assert(found[0]@[0] == span_of(subj@, scan(m, subj@, 0)[0].saved, 0));
    }
}

/// Anchor at the end: every match of a pattern that ends with `$` ends at
/// the last byte of the subject.
pub proof fn law_anchored_end(m: RegexModel, subj: &str, found: Seq<Match>, k: int)
    requires
        m.runnable(),
        subj@.len() <= usize::MAX,
        is_match_list(found, m, subj),
        m.anchor_end,
        0 <= k < found.len(),
    ensures
        found[k]@.len() > 0,
        found[k]@[0].1 == subj.spec_bytes().len(),
{
    lemma_whole_match(m, subj, found, k);
    lemma_byte_offset_monotone(subj@, subj@.len() as int, subj@.len() as int);
    assert(found[k]@[0] == span_of(subj@, scan(m, subj@, 0)[k].saved, 0));
}

/// Capture consistency: a match has a range for the whole match and for
/// every group of the pattern; no range ends before it begins, and every
/// range lies within that of the whole match.
pub proof fn law_captures_in_order(m: RegexModel, subj: &str, found: Seq<Match>, k: int, n: int)
    requires
        m.runnable(),
        subj@.len() <= usize::MAX,
        is_match_list(found, m, subj),
        0 <= k < found.len(),
        0 <= n <= m.captures,
    ensures
        found[k]@.len() == m.captures + 1,
        found[k]@[0].0 <= found[k]@[n].0 <= found[k]@[n].1 <= found[k]@[0].1,
{
    lemma_whole_match(m, subj, found, k);
    let t = scan(m, subj@, 0)[k];
    assert(slot_recorded(t.saved, 2 * n, t.sp));
    assert(slot_recorded(t.saved, 2 * n + 1, t.sp));
    let a = t.saved[2 * n]->0 as int;
    let b = t.saved[2 * n + 1]->0 as int;
    assert(t.saved[2 * n] is Some);
    lemma_byte_offset_monotone(subj@, t.saved[0]->0 as int, a);
    lemma_byte_offset_monotone(subj@, a, b);
    lemma_byte_offset_monotone(subj@, b, t.sp);
    assert(found[k]@[n] == span_of(subj@, t.saved, n));
    assert(found[k]@[0] == span_of(subj@, t.saved, 0));
}

/// Capture consistency: where a back-reference to group `n` matches, the
/// code points it takes are those that the group has captured, one for one.
/// It matches nothing while an end of the group is not recorded.
pub proof fn law_backref_reads_capture(
    input: Seq<char>,
    saved: Seq<Option<usize>>,
    n: int,
    sp: int,
)
    ensures
        backref_end(input, saved, n, sp) matches Some(end) ==> 0 <= n && 2 * n + 1 < saved.len()
            && saved[2 * n] is Some && saved[2 * n + 1] is Some && input.subrange(sp, end)
            == input.subrange(saved[2 * n]->0 as int, saved[2 * n + 1]->0 as int),
{
}

/// Whether the targets of the instruction `c`, if it has any, lie at `at`
/// or before.
pub open spec fn targets_up_to(c: CodeModel, at: int) -> bool {
    match c {
        CodeModel::Jmp(t) => t <= at,
        CodeModel::Split { x, y } => x <= at && y <= at,
        _ => true,
    }
}

/// Whether the two programs are the same but for their last block, which
/// stands at `at` and repeats one instruction: in `greedy` as often as it
/// can, in `lazy` as seldom as it can.
pub open spec fn differ_in_last_star(
    greedy: Seq<CodeModel>,
    lazy: Seq<CodeModel>,
    at: int,
) -> bool {
    &&& 1 <= at
    &&& greedy.len() == at + 5
    &&& lazy.len() == at + 5
    &&& forall|pc: int|
        0 <= pc < at ==> #[trigger] greedy[pc] == lazy[pc] && targets_up_to(greedy[pc], at)
    &&& greedy[at] == CodeModel::Split { x: (at + 1) as usize, y: (at + 3) as usize }
    &&& lazy[at] == CodeModel::Split { x: (at + 3) as usize, y: (at + 1) as usize }
    &&& at + 3 <= usize::MAX
}

/// Whether the greedy program and the lazy one end alike: both fail, or
/// both accept and the greedy one not before the lazy one, with the same
/// beginning of the whole match.
pub open spec fn covers(greedy: Option<Thread>, lazy: Option<Thread>) -> bool {
    match (greedy, lazy) {
        (Some(g), Some(l)) => l.sp <= g.sp && g.saved[0] == l.saved[0],
        (None, None) => true,
        _ => false,
    }
}

/// From any state before or at the last block, two programs that differ in
/// that block alone end alike ([`covers`]).
pub proof fn lemma_greedy_covers_lazy(
    greedy: Seq<CodeModel>,
    lazy: Seq<CodeModel>,
    at: int,
    input: Seq<char>,
    pc: int,
    sp: int,
    saved: Seq<Option<usize>>,
)
    requires
        differ_in_last_star(greedy, lazy, at),
        well_formed(greedy, saved.len() as int),
        well_formed(lazy, saved.len() as int),
        grouped(greedy, saved.len() as int),
        grouped(lazy, saved.len() as int),
        0 <= pc <= at,
        0 <= sp <= input.len(),
    ensures
        covers(run(greedy, input, pc, sp, saved), run(lazy, input, pc, sp, saved)),
    decreases input.len() - sp, distance(greedy, pc),
{
    let slots = saved.len() as int;
    assert(instruction_ok(greedy, slots, pc));
    assert(instruction_ok(greedy, slots, pc + 1));
    lemma_run_advances(greedy, input, pc, sp, saved);
    lemma_run_advances(lazy, input, pc, sp, saved);
    if pc == at {
        let closed = saved.update(1, Some(#[verifier::truncate] (sp as usize)));
        assert(instruction_ok(lazy, slots, at + 3));
        assert(lazy[at + 3] == CodeModel::Save(1) && lazy[at + 4] == CodeModel::Match);
        assert(greedy[at + 3] == CodeModel::Save(1) && greedy[at + 4] == CodeModel::Match);
        assert(run(lazy, input, at + 4, sp, closed) == Some(
            Thread { pc: at + 4, sp, saved: closed },
        ));
        assert(run(lazy, input, at + 3, sp, saved) == run(lazy, input, at + 4, sp, closed));
        assert(run(greedy, input, at + 4, sp, closed) == Some(
            Thread { pc: at + 4, sp, saved: closed },
        ));
        assert(run(greedy, input, at + 3, sp, saved) == run(greedy, input, at + 4, sp, closed));
    } else {
        assert(greedy[pc] == lazy[pc]);
        assert(targets_up_to(greedy[pc], at));
        match greedy[pc] {
            CodeModel::Char(class) => {
                if sp < input.len() && class.accepts(input[sp]) {
                    lemma_greedy_covers_lazy(greedy, lazy, at, input, pc + 1, sp + 1, saved);
                }
            },
            CodeModel::Captured(n) => {
                match backref_end(input, saved, n as int, sp) {
                    Some(end) => {
                        lemma_greedy_covers_lazy(greedy, lazy, at, input, pc + 1, end, saved);
                    },
                    None => {},
                }
            },
            CodeModel::Border(open, close) => {
                match crate::recursive::border_end(input, sp, open, close) {
                    Some(end) => {
                        crate::recursive::lemma_balance_end_bounds(input, sp + 1, 1, open, close);
                        lemma_greedy_covers_lazy(greedy, lazy, at, input, pc + 1, end, saved);
                    },
                    None => {},
                }
            },
            CodeModel::Frontier(class) => {
                if crate::recursive::frontier_holds(class, input, sp) {
                    lemma_greedy_covers_lazy(greedy, lazy, at, input, pc + 1, sp, saved);
                }
            },
            CodeModel::Jmp(t) => {
                lemma_greedy_covers_lazy(greedy, lazy, at, input, t as int, sp, saved);
            },
            CodeModel::Split { x, y } => {
                lemma_greedy_covers_lazy(greedy, lazy, at, input, x as int, sp, saved);
                lemma_run_advances(greedy, input, x as int, sp, saved);
                lemma_run_advances(lazy, input, x as int, sp, saved);
                if run(greedy, input, x as int, sp, saved) is None {
                    lemma_greedy_covers_lazy(greedy, lazy, at, input, y as int, sp, saved);
                    lemma_run_advances(greedy, input, y as int, sp, saved);
                    lemma_run_advances(lazy, input, y as int, sp, saved);
                }
            },
            CodeModel::Save(slot) => {
                let next = saved.update(slot as int, Some(#[verifier::truncate] (sp as usize)));
                lemma_greedy_covers_lazy(greedy, lazy, at, input, pc + 1, sp, next);
                lemma_run_advances(greedy, input, pc + 1, sp, next);
                lemma_run_advances(lazy, input, pc + 1, sp, next);
            },
            CodeModel::Match => {},
        }
    }
}

/// Where the pairs of a pattern that ends with a greedy repetition are in
/// order, so are they with the lazy repetition in its place, and both have
/// the groups of the pairs before.
proof fn lemma_lazy_is_ok_too(front: Seq<(ElementModel, Quantifier)>, last: ElementModel)
    requires
        tokens_ok(front.push((last, Quantifier::ZeroOrManyGreedy))),
    ensures
        tokens_ok(front.push((last, Quantifier::ZeroOrManyUngreedy))),
        group_count(front.push((last, Quantifier::ZeroOrManyGreedy))) == group_count(front),
        group_count(front.push((last, Quantifier::ZeroOrManyUngreedy))) == group_count(front),
{
    let with_star = front.push((last, Quantifier::ZeroOrManyGreedy));
    let with_dash = front.push((last, Quantifier::ZeroOrManyUngreedy));
    let n = front.len() as int;
    assert(with_star.drop_last() =~= front);
    assert(with_dash.drop_last() =~= front);
    assert(token_ok(with_star[n], group_count(with_star) as int));
    assert(group_count(with_star) == group_count(front));
    assert(group_count(with_dash) == group_count(front));
    assert forall|i: int| 0 <= i < with_dash.len() implies token_ok(
        #[trigger] with_dash[i],
        group_count(with_dash) as int,
    ) && numbered(with_dash, i) by {
        assert(token_ok(with_star[i], group_count(with_star) as int));
        assert(numbered(with_star, i));
        if i < n {
            assert(with_dash[i] == with_star[i]);
            assert(with_dash.take(i) =~= with_star.take(i));
        } else {
            assert(with_dash.take(i) =~= with_star.take(i));
        }
    }
    assert forall|k: usize| 1 <= k <= group_count(with_dash) implies #[trigger] closes(
        with_dash,
        k,
    ) by {
        assert(closes(with_star, k));
        let i = choose|i: int|
            0 <= i < with_star.len() && (#[trigger] with_star[i]).0 == ElementModel::SaveClose(k);
        assert(with_dash[i].0 == with_star[i].0);
    }
}

/// Lazy and greedy, for a pattern that ends with the repeated element: of
/// two patterns that are the same but for the quantifier of their last
/// element, which is `*` in the one and `-` in the other, both match at a
/// position or neither does; and where they match, the two matches begin at
/// the same code point and the greedy one does not end before the lazy one.
pub proof fn law_greedy_covers_lazy_at_the_end(
    front: Seq<(ElementModel, Quantifier)>,
    last: ElementModel,
    input: Seq<char>,
    start: int,
)
    requires
        tokens_ok(front.push((last, Quantifier::ZeroOrManyGreedy))),
        front.len() < max_pattern_len(),
        0 <= start <= input.len(),
    ensures
        covers(
            attempt(
                assemble(front.push((last, Quantifier::ZeroOrManyGreedy))),
                input,
                start,
                2 * group_count(front) + 2,
            ),
            attempt(
                assemble(front.push((last, Quantifier::ZeroOrManyUngreedy))),
                input,
                start,
                2 * group_count(front) + 2,
            ),
        ),
{
    let with_star = front.push((last, Quantifier::ZeroOrManyGreedy));
    let with_dash = front.push((last, Quantifier::ZeroOrManyUngreedy));
    let n = front.len() as int;
    lemma_lazy_is_ok_too(front, last);
    assert(with_star.drop_last() =~= front);
    assert(with_dash.drop_last() =~= front);
    lemma_assembled_is_runnable(with_star);
    lemma_assembled_is_runnable(with_dash);
    lemma_assembled_so_far(with_star, n);
    assert(with_star.take(n) =~= front);
    let before = seq![CodeModel::Save(0)] + body(front);
    let at = before.len() as int;
    let greedy = assemble(with_star);
    let lazy = assemble(with_dash);
    let tail = seq![CodeModel::Save(1), CodeModel::Match];
    assert(greedy =~= before + block(last, Quantifier::ZeroOrManyGreedy, at) + tail);
    assert(lazy =~= before + block(last, Quantifier::ZeroOrManyUngreedy, at) + tail);
    assert forall|pc: int| 0 <= pc < at implies #[trigger] greedy[pc] == lazy[pc] && targets_up_to(
        greedy[pc],
        at,
    ) by {
        assert(greedy[pc] == before[pc]);
        assert(lazy[pc] == before[pc]);
        assert(instruction_ok(before, 2 * group_count(with_star) + 2, pc));
    }
    assert(greedy[at] == block(last, Quantifier::ZeroOrManyGreedy, at)[0]);
    assert(lazy[at] == block(last, Quantifier::ZeroOrManyUngreedy, at)[0]);
    let slots = 2 * group_count(front) + 2;
    assert(fresh(slots).len() == slots);
    lemma_greedy_covers_lazy(greedy, lazy, at, input, 0, start, fresh(slots));
}

} // verus!
