//! The subject of a match, indexed by code point.
//!
//! The machine counts in code points; what it finds is reported in bytes.
//! [`byte_offset`] is the bridge: the byte at which a code point begins.

use vstd::prelude::*;
use vstd::utf8::{encode_scalar, encode_utf8, is_char_boundary};

verus! {

/// Number of bytes in the UTF-8 encoding of `c`.
pub open spec fn utf8_width(c: char) -> int {
    encode_scalar(c as u32).len() as int
}

/// The byte at which the code point of index `i` begins in the UTF-8
/// encoding of `s`; for `i == s.len()`, the length of the encoding.
pub open spec fn byte_offset(s: Seq<char>, i: int) -> int {
    encode_utf8(s.take(i)).len() as int
}

/// Encoding is done code point by code point.
pub proof fn lemma_encode_concat(a: Seq<char>, b: Seq<char>)
    ensures
        encode_utf8(a + b) == encode_utf8(a) + encode_utf8(b),
    decreases a.len(),
{
    if a.len() == 0 {
        assert(a + b =~= b);
        assert(encode_utf8(a) + encode_utf8(b) =~= encode_utf8(b));
    } else {
        assert((a + b).drop_first() =~= a.drop_first() + b);
        lemma_encode_concat(a.drop_first(), b);
        assert((a + b)[0] == a[0]);
        assert(encode_utf8(a + b) =~= encode_utf8(a) + encode_utf8(b));
    }
}

/// The offsets begin at 0 and grow by the width of each code point.
pub proof fn lemma_byte_offset_step(s: Seq<char>, i: int)
    requires
        0 <= i < s.len(),
    ensures
        byte_offset(s, 0) == 0,
        byte_offset(s, i + 1) == byte_offset(s, i) + utf8_width(s[i]),
        byte_offset(s, i) < byte_offset(s, i + 1),
{
    assert(s.take(0) =~= Seq::<char>::empty());
    assert(s.take(i + 1) =~= s.take(i) + seq![s[i]]);
    lemma_encode_concat(s.take(i), seq![s[i]]);
    let one = seq![s[i]];
    assert(one.drop_first() =~= Seq::<char>::empty());
    assert(encode_utf8(one) =~= encode_scalar(s[i] as u32)) by {
        reveal_with_fuel(encode_utf8, 2);
    }
}

proof fn lemma_byte_offset_ordered(s: Seq<char>, i: int, j: int)
    requires
        0 <= i <= j <= s.len(),
    ensures
        0 <= byte_offset(s, i) <= byte_offset(s, j),
        i < j ==> byte_offset(s, i) < byte_offset(s, j),
    decreases j - i,
{
    if i < j {
        lemma_byte_offset_step(s, i);
        lemma_byte_offset_ordered(s, i + 1, j);
    }
}

/// A later code point begins at a later byte, and none begins after the end
/// of the encoding.
pub proof fn lemma_byte_offset_monotone(s: Seq<char>, i: int, j: int)
    requires
        0 <= i <= j <= s.len(),
    ensures
        0 <= byte_offset(s, i) <= byte_offset(s, j) <= encode_utf8(s).len(),
        i < j ==> byte_offset(s, i) < byte_offset(s, j),
        byte_offset(s, s.len() as int) == encode_utf8(s).len(),
{
    assert(s.take(s.len() as int) =~= s);
    lemma_byte_offset_ordered(s, i, j);
    lemma_byte_offset_ordered(s, j, s.len() as int);
}

/// Every code point begins at a character boundary of the encoding, and so
/// does the end.
pub proof fn lemma_byte_offset_is_boundary(s: Seq<char>, i: int)
    requires
        0 <= i <= s.len(),
    ensures
        is_char_boundary(encode_utf8(s), byte_offset(s, i)),
    decreases i,
{
    broadcast use vstd::utf8::encode_utf8_valid_utf8;

    let bytes = encode_utf8(s);
    if i == 0 {
        lemma_byte_offset_step_zero(s);
    } else {
        let rest = s.drop_first();
        vstd::utf8::encode_utf8_first_scalar(s);
        assert(vstd::utf8::pop_first_scalar(bytes) =~= encode_utf8(rest));
        assert(s.take(i) =~= seq![s[0]] + rest.take(i - 1));
        lemma_encode_concat(seq![s[0]], rest.take(i - 1));
        assert(seq![s[0]].drop_first() =~= Seq::<char>::empty());
        assert(encode_utf8(seq![s[0]]) =~= encode_scalar(s[0] as u32)) by {
            reveal_with_fuel(encode_utf8, 2);
        }
        lemma_byte_offset_is_boundary(rest, i - 1);
        lemma_byte_offset_monotone(s, i, i);
        assert(byte_offset(s, i) == encode_scalar(s[0] as u32).len() + byte_offset(rest, i - 1));
        assert(byte_offset(s, i) > 0) by {
            vstd::utf8::char_is_scalar(s[0]);
        }
    }
}

proof fn lemma_byte_offset_step_zero(s: Seq<char>)
    ensures
        byte_offset(s, 0) == 0,
{
    assert(s.take(0) =~= Seq::<char>::empty());
}

/// Computes the number of bytes in the UTF-8 encoding of `c`.
pub fn char_width(c: char) -> (n: usize)
    ensures
        n == utf8_width(c),
        1 <= n <= 4,
{
    let v: u32 = c as u32;
    if v < 0x80 {
        1
    } else if v < 0x800 {
        2
    } else if v < 0x10000 {
        3
    } else {
        4
    }
}

/// The code point at index `i` of `v`.
pub fn char_at(v: &Vec<char>, i: usize) -> (c: char)
    requires
        i < v.len(),
    ensures
        c == v@[i as int],
{
    v[i]
}

/// The code points of `s`, in order.
pub fn chars_of(s: &str) -> (v: Vec<char>)
    ensures
        v@ == s@,
{
    broadcast use vstd::string::group_string_axioms;

    let mut v: Vec<char> = Vec::new();
    for c in it: s.chars()
        invariant
            it.seq() == s@,
            v@ == s@.take(it.index() as int),
    {
        v.push(c);
    }
    v
}

/// A subject with its code points laid out for indexing: each with the byte
/// at which it begins.
#[derive(Debug, PartialEq)]
pub struct Input<'a> {
    pub subj: &'a str,
    pub chars: Vec<(usize, char)>,
}

impl<'a> View for Input<'a> {
    type V = Seq<char>;

    /// The code points of the subject.
    open spec fn view(&self) -> Seq<char> {
        self.subj@
    }
}

impl<'a> Input<'a> {
    /// The table holds the code points of the subject, each with its byte
    /// offset.
    pub open spec fn wf(&self) -> bool {
        &&& self.chars@.len() == self.subj@.len()
        &&& self.subj@.len() <= usize::MAX
        &&& encode_utf8(self.subj@).len() <= usize::MAX
        &&& forall|i: int|
            0 <= i < self.chars@.len() ==> (#[trigger] self.chars@[i]).1 == self.subj@[i]
                && self.chars@[i].0 == byte_offset(self.subj@, i)
    }

    /// Indexes the code points of `subj`.
    pub fn new(subj: &'a str) -> (input: Self)
        ensures
            input.wf(),
            input.subj == subj,
    {
        broadcast use vstd::string::group_string_axioms;

        let total = subj.as_bytes().len();
        let mut chars: Vec<(usize, char)> = Vec::new();
        let mut offset: usize = 0;
        proof {
            lemma_byte_offset_step_zero(subj@);
        }
        for c in it: subj.chars()
            invariant
                it.seq() == subj@,
                total == encode_utf8(subj@).len(),
                chars@.len() == it.index(),
                offset == byte_offset(subj@, it.index() as int),
                forall|i: int|
                    0 <= i < chars@.len() ==> (#[trigger] chars@[i]).1 == subj@[i] && chars@[i].0
                        == byte_offset(subj@, i),
        {
            proof {
                lemma_byte_offset_step(subj@, it.index() as int);
                lemma_byte_offset_monotone(subj@, it.index() + 1, subj@.len() as int);
            }
            chars.push((offset, c));
            offset = offset + char_width(c);
        }
        let _ = chars.len();
        Input { subj, chars }
    }

    /// The number of code points.
    pub fn len(&self) -> (n: usize)
        requires
            self.wf(),
        ensures
            n == self@.len(),
    {
        self.chars.len()
    }

    /// The code point of index `index`, if there is one.
    pub fn get_char(&self, index: usize) -> (c: Option<char>)
        requires
            self.wf(),
        ensures
            c == if index < self@.len() {
                Some(self@[index as int])
            } else {
                None
            },
    {
        if index < self.chars.len() {
            Some(self.chars[index].1)
        } else {
            None
        }
    }

    /// The byte at which the code point of index `char_index` begins; for
    /// the index just after the last code point, the length of the subject
    /// in bytes; for a later one, nothing.
    pub fn get_byte_index(&self, char_index: usize) -> (b: Option<usize>)
        requires
            self.wf(),
        ensures
            b == if char_index <= self@.len() {
                Some(byte_offset(self@, char_index as int) as usize)
            } else {
                None
            },
            char_index <= self@.len() ==> byte_offset(self@, char_index as int) <= usize::MAX,
    {
        proof {
            if char_index <= self@.len() {
                lemma_byte_offset_monotone(self@, char_index as int, self@.len() as int);
            }
        }
        let n = self.chars.len();
        if char_index < n {
            Some(self.chars[char_index].0)
        } else if char_index == n {
            if n == 0 {
                proof {
                    lemma_byte_offset_step_zero(self@);
                }
                Some(0)
            } else {
                let last = &self.chars[n - 1];
                proof {
                    lemma_byte_offset_step(self@, n - 1);
                }
                Some(last.0 + char_width(last.1))
            }
        } else {
            None
        }
    }
}

} // verus!
