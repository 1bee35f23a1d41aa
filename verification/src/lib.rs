//! A Lua-style pattern matching engine: patterns are lexed, compiled to a
//! small bytecode, and run by a backtracking virtual machine over the code
//! points of a subject string.

use crate::input::{
    byte_offset, lemma_byte_offset_monotone, lemma_encode_concat, lemma_byte_offset_is_boundary,
};
use core::ops::Range;
use vstd::prelude::*;
use vstd::string::StringSliceAdditionalSpecFns;
use vstd::utf8::encode_utf8;

pub mod assemble;
pub mod character_class;
pub mod code;
pub mod context;
pub mod error;
pub mod input;
pub mod laws;
pub mod lexer;
pub mod parse;
pub mod recursive;
pub mod regex;
pub mod unicode;

verus! {

/// Whether byte `b` is where some code point of `s` begins, or the end of
/// the encoding of `s`.
pub open spec fn is_offset(s: Seq<char>, b: int) -> bool {
    exists|i: int| 0 <= i <= s.len() && #[trigger] byte_offset(s, i) == b
}

/// What a pattern has found in a subject: the whole match and the groups,
/// each as a range of bytes of the subject.
#[derive(Debug)]
pub struct Match<'a> {
    pub subj: &'a str,
    /// Index 0 is the whole match, index `n` is group `n`.
    pub captures: Vec<Range<usize>>,
}

/// What a group has captured: text, or a position where the group is
/// empty.
#[derive(Debug)]
pub enum Capture<'a> {
    Value(&'a str),
    Index(usize),
}

/// The bytes of `s` from `start` to `end`, both of which are places where a
/// code point begins.
pub fn slice<'a>(s: &'a str, start: usize, end: usize) -> (sub: &'a str)
    requires
        start <= end,
        is_offset(s@, start as int),
        is_offset(s@, end as int),
    ensures
        sub.spec_bytes() == s.spec_bytes().subrange(start as int, end as int),
        exists|i: int, j: int|
            0 <= i <= j <= s@.len() && byte_offset(s@, i) == start && byte_offset(s@, j) == end
                && sub@ == s@.subrange(i, j),
{
    broadcast use vstd::utf8::encode_utf8_valid_utf8;
    broadcast use vstd::utf8::encode_utf8_decode_utf8;

    let ghost chars = s@;
    let ghost i = choose|i: int| 0 <= i <= chars.len() && #[trigger] byte_offset(chars, i) == start;
    let ghost j0 = choose|j: int| 0 <= j <= chars.len() && #[trigger] byte_offset(chars, j) == end;
    let ghost j = if i <= j0 { j0 } else { i };
    proof {
        if j0 < i {
            lemma_byte_offset_monotone(chars, j0, i);
        }
        lemma_byte_offset_is_boundary(chars, i);
        lemma_byte_offset_monotone(chars, i, j);
        assert(chars =~= chars.take(i) + chars.skip(i));
        lemma_encode_concat(chars.take(i), chars.skip(i));
    }
    let (_, tail) = s.split_at(start);
    proof {
        assert(tail.spec_bytes() =~= encode_utf8(chars.skip(i)));
        assert(chars.take(j) =~= chars.take(i) + chars.skip(i).take(j - i));
        lemma_encode_concat(chars.take(i), chars.skip(i).take(j - i));
        lemma_byte_offset_is_boundary(chars.skip(i), j - i);
        assert(byte_offset(chars.skip(i), j - i) == end - start);
    }
    let (sub, _) = tail.split_at(end - start);
    proof {
        let rest = chars.skip(i);
        let found = rest.take(j - i);
        assert(rest =~= found + rest.skip(j - i));
        lemma_encode_concat(found, rest.skip(j - i));
        assert(sub.spec_bytes() =~= encode_utf8(found));
        assert(found =~= chars.subrange(i, j));
        vstd::utf8::encode_utf8_decode_utf8(sub@);
        vstd::utf8::encode_utf8_decode_utf8(found);
        assert(sub@ == chars.subrange(i, j));
        assert(sub.spec_bytes() =~= s.spec_bytes().subrange(start as int, end as int));
    }
    sub
}

impl<'a> View for Match<'a> {
    type V = Seq<(int, int)>;

    /// The ranges as pairs of their ends.
    open spec fn view(&self) -> Seq<(int, int)> {
        crate::context::range_ends(self.captures@)
    }
}

impl<'a> Capture<'a> {
    /// Whether `self` is what the range `range` of `subj` gives: the
    /// beginning of the range where it is empty, else the text in it.
    pub open spec fn is_capture_of(self, subj: &str, range: Range<usize>) -> bool {
        if range.start >= range.end {
            self matches Capture::Index(at) && at == range.start
        } else {
            self matches Capture::Value(text) && text.spec_bytes() == subj.spec_bytes().subrange(
                range.start as int,
                range.end as int,
            )
        }
    }
}

impl<'a> Match<'a> {
    /// Every range begins and ends where a code point of the subject
    /// begins, or at the end of the subject.
    pub open spec fn wf(&self) -> bool {
        forall|k: int|
            0 <= k < self.captures@.len() ==> is_offset(
                self.subj@,
                (#[trigger] self.captures@[k]).start as int,
            ) && is_offset(self.subj@, self.captures@[k].end as int)
    }

    /// What group `n` has captured; the whole match for `n == 0`.
    ///
    /// Nothing where there is no such group. The position of the group
    /// where its range is empty, else the text of the range.
    pub fn capture(&self, n: usize) -> (r: Option<Capture<'a>>)
        requires
            self.wf(),
        ensures
            n >= self.captures@.len() ==> r is None,
            n < self.captures@.len() ==> (r matches Some(c) && c.is_capture_of(
                self.subj,
                self.captures@[n as int],
            )),
    {
        if n >= self.captures.len() {
            return None;
        }
        let start = self.captures[n].start;
        let end = self.captures[n].end;
        if start >= end {
            Some(Capture::Index(start))
        } else {
            Some(Capture::Value(slice(self.subj, start, end)))
        }
    }

    /// What the whole match and each group have captured, in order.
    pub fn captures(&self) -> (all: Vec<Capture<'a>>)
        requires
            self.wf(),
        ensures
            all@.len() == self.captures@.len(),
            forall|k: int|
                0 <= k < all@.len() ==> (#[trigger] all@[k]).is_capture_of(
                    self.subj,
                    self.captures@[k],
                ),
    {
        self.captures_iter()
    }

    /// What the whole match and each group have captured, in order.
    pub fn captures_iter(&self) -> (all: Vec<Capture<'a>>)
        requires
            self.wf(),
        ensures
            all@.len() == self.captures@.len(),
            forall|k: int|
                0 <= k < all@.len() ==> (#[trigger] all@[k]).is_capture_of(
                    self.subj,
                    self.captures@[k],
                ),
    {
        let mut all: Vec<Capture<'a>> = Vec::new();
        let mut n: usize = 0;
        while n < self.captures.len()
            invariant
                self.wf(),
                n <= self.captures@.len(),
                all@.len() == n,
                forall|k: int|
                    0 <= k < all@.len() ==> (#[trigger] all@[k]).is_capture_of(
                        self.subj,
                        self.captures@[k],
                    ),
            decreases self.captures@.len() - n,
        {
            match self.capture(n) {
                Some(c) => {
                    all.push(c);
                },
                None => {},
            }
            n += 1;
        }
        all
    }
}

} // verus!
