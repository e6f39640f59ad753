//! Pattern file formats of Life-like cellular automata: Plaintext and RLE.

use vstd::prelude::*;

use crate::position::Position;
use crate::rule::Rule;
use crate::text::{find_from, first_in, lines, lemma_first_in_bounds, strip_cr, sub_chars, CharClass};

pub mod cells;
pub mod laws;
pub mod plaintext;
pub mod plaintext_builder;
pub mod plaintext_rows;
pub mod rle;
pub mod rle_bounds;
pub mod rle_builder;
pub mod rle_laws;

pub use plaintext::{Plaintext, PlaintextLine};
pub use rle::{Rle, RleRunsTriple, RleTag};
pub use rle_builder::{
    RleBuilder, RleBuilderComment, RleBuilderCreated, RleBuilderName, RleBuilderNoComment,
    RleBuilderNoCreated, RleBuilderNoName, RleBuilderNoRule, RleBuilderRule, RleBuilderWithComment,
    RleBuilderWithCreated, RleBuilderWithName, RleBuilderWithRule,
};
pub use plaintext_builder::{
    PlaintextBuilder, PlaintextBuilderComment, PlaintextBuilderName, PlaintextBuilderNoComment,
    PlaintextBuilderNoName, PlaintextBuilderWithComment, PlaintextBuilderWithName,
};



verus! {

/// The errors of reading and building patterns.
#[derive(Clone, Copy, Debug, PartialEq, Eq, Structural)]
pub enum FormatError {
    /// The input is not valid UTF-8.
    InvalidUtf8,
    /// A Plaintext content line holds a character other than `'.'` and `'O'`.
    InvalidCharacter,
    /// The name given to a builder spans more than one line.
    MultilineName,
    /// An RLE header line has more than three fields.
    TooManyFields,
    /// An RLE header field has no `'='`.
    HeaderFieldWithoutEquals,
    /// An RLE header line has fewer than two fields.
    TooFewFields,
    /// An RLE header field is not `x`, `y` and `rule`, in that order.
    UnexpectedVariable,
    /// An RLE header value is not a number or not a rule.
    InvalidValue,
    /// An RLE content line is not in the format.
    WrongContentFormat,
    /// An RLE pattern goes beyond the height in its header.
    ExceedsHeight,
    /// An RLE pattern goes beyond the width in its header.
    ExceedsWidth,
    /// An RLE pattern has no terminating `'!'`.
    TerminatorNotFound,
    /// An RLE run count, or the position it leads to, does not fit in `usize`.
    RunCountOverflow,
}

/// What a pattern file format gives: a rule and the positions of the live cells.
pub trait Format {
    /// The birth and survival tables of the rule of the pattern.
    spec fn spec_rule_tables(&self) -> (Seq<bool>, Seq<bool>);

    /// The positions of the live cells of the pattern, in order.
    spec fn spec_live_cells(&self) -> Seq<Position<usize>>;

    /// The positions of the live cells of the pattern fit in `usize`.
    spec fn live_cells_fit(&self) -> bool;

    /// Returns the rule.
    fn rule(&self) -> (r: Rule)
        ensures
            (r.birth_table(), r.survival_table()) == self.spec_rule_tables(),
    ;

    /// Returns the positions of the live cells, in ascending order (by row, then column).
    fn live_cells(&self) -> (res: Vec<Position<usize>>)
        requires
            self.live_cells_fit(),
        ensures
            res@ == self.spec_live_cells(),
            cells::cells_sorted(res@),
    ;
}

/// std's `str::from_utf8`: the text that `bytes` encode when they are valid UTF-8.
#[verifier::external_body]
pub(crate) fn decode_utf8(bytes: &[u8]) -> (res: Option<&str>)
    ensures
        res is Some <==> vstd::utf8::valid_utf8(bytes@),
        res matches Some(s) ==> s@ == vstd::utf8::decode_utf8(bytes@),
{
    std::str::from_utf8(bytes).ok()
}

/// The views of a sequence of character vectors.
pub open spec fn views(vs: Seq<Vec<char>>) -> Seq<Seq<char>> {
    vs.map_values(|v: Vec<char>| v@)
}

/// The characters of `v` without one trailing `'\r'`.
fn strip_cr_vec(v: Vec<char>) -> (res: Vec<char>)
    ensures
        res@ == strip_cr(v@),
{
    let mut v = v;
    if v.len() > 0 && v[v.len() - 1] == '\r' {
        v.pop();
    }
    v
}

/// The lines of `v` (see `lines`).
pub(crate) fn split_lines(v: &Vec<char>) -> (res: Vec<Vec<char>>)
    ensures
        views(res@) == lines(v@),
{
    let mut res: Vec<Vec<char>> = Vec::new();
    let mut pos: usize = 0;
    assert(v@.skip(0) == v@);
    while pos < v.len()
        invariant
            pos <= v.len(),
            lines(v@) == views(res@) + lines(v@.skip(pos as int)),
        decreases v.len() - pos,
    {
        let ghost rest = v@.skip(pos as int);
        let i = find_from(v, pos, CharClass::Exactly('\n'));
        proof {
            lemma_first_in_bounds(rest, CharClass::Exactly('\n'));
        }
        let ghost old_res = res@;
        if i == v.len() {
            let line = sub_chars(v, pos, v.len());
            res.push(line);
            assert(line@ == rest);
            assert(lines(rest) == seq![rest]);
            assert(views(res@) =~= views(old_res).push(rest));
            pos = v.len();
            assert(lines(v@.skip(pos as int)) =~= Seq::<Seq<char>>::empty()) by {
                assert(v@.skip(pos as int).len() == 0);
            }
            assert(lines(v@) =~= views(res@) + lines(v@.skip(pos as int)));
        } else {
            let line = strip_cr_vec(sub_chars(v, pos, i));
            res.push(line);
            assert(rest.take(i - pos) == v@.subrange(pos as int, i as int));
            assert(rest.skip(i - pos + 1) == v@.skip(i + 1));
            assert(lines(rest) == seq![strip_cr(rest.take(i - pos))] + lines(rest.skip(i - pos + 1)));
            assert(views(res@) =~= views(old_res).push(line@));
            pos = i + 1;
            assert(lines(v@) =~= views(res@) + lines(v@.skip(pos as int)));
        }
    }
    assert(lines(v@.skip(pos as int)) =~= Seq::<Seq<char>>::empty()) by {
        assert(v@.skip(pos as int).len() == 0);
    }
    assert(lines(v@) =~= views(res@));
    res
}

/// The index of the first byte `b` of `s`, or the length of `s` when there is none.
pub open spec fn first_byte(s: Seq<u8>, b: u8) -> int
    decreases s.len(),
{
    if s.len() == 0 {
        0
    } else if s[0] == b {
        0
    } else {
        1 + first_byte(s.drop_first(), b)
    }
}

proof fn lemma_first_byte(s: Seq<u8>, b: u8, i: int)
    requires
        0 <= i <= s.len(),
        forall|j: int| 0 <= j < i ==> #[trigger] s[j] != b,
        i == s.len() || s[i] == b,
    ensures
        first_byte(s, b) == i,
    decreases i,
{
    if i > 0 {
        assert forall|j: int| 0 <= j < i - 1 implies #[trigger] s.drop_first()[j] != b by {
            assert(s.drop_first()[j] == s[j + 1]);
        }
        lemma_first_byte(s.drop_first(), b, i - 1);
    }
}

/// `s` without one trailing `b'\r'`.
pub open spec fn strip_cr_bytes(s: Seq<u8>) -> Seq<u8> {
    if s.len() > 0 && s.last() == 13 {
        s.drop_last()
    } else {
        s
    }
}

/// The lines of a byte text, as std's `BufRead::lines` splits them: at `b'\n'`, one
/// `b'\r'` before each `b'\n'` dropped, and no empty last line.
pub open spec fn byte_lines(s: Seq<u8>) -> Seq<Seq<u8>>
    decreases s.len(),
{
    if s.len() == 0 {
        seq![]
    } else {
        let i = first_byte(s, 10);
        if i >= s.len() || i < 0 {
            seq![s]
        } else {
            seq![strip_cr_bytes(s.take(i))] + byte_lines(s.skip(i + 1))
        }
    }
}

/// The views of a sequence of byte vectors.
pub open spec fn byte_views(vs: Seq<Vec<u8>>) -> Seq<Seq<u8>> {
    vs.map_values(|v: Vec<u8>| v@)
}

/// The lines of a byte text (see `byte_lines`).
pub(crate) fn split_byte_lines(v: &[u8]) -> (res: Vec<Vec<u8>>)
    ensures
        byte_views(res@) == byte_lines(v@),
{
    let mut res: Vec<Vec<u8>> = Vec::new();
    let mut pos: usize = 0;
    assert(v@.skip(0) == v@);
    while pos < v.len()
        invariant
            pos <= v.len(),
            byte_lines(v@) == byte_views(res@) + byte_lines(v@.skip(pos as int)),
        decreases v.len() - pos,
    {
        let ghost rest = v@.skip(pos as int);
        let mut i = pos;
        while i < v.len() && v[i] != 10
            invariant
                pos <= i <= v.len(),
                forall|j: int| pos <= j < i ==> v@[j] != 10,
            decreases v.len() - i,
        {
            i += 1;
        }
        proof {
            assert forall|j: int| 0 <= j < i - pos implies #[trigger] rest[j] != 10 by {
                assert(rest[j] == v@[pos + j]);
            }
            if i < v.len() {
                assert(rest[i - pos] == v@[i as int]);
            }
            lemma_first_byte(rest, 10, i - pos);
        }
        let mut line: Vec<u8> = Vec::new();
        let mut k = pos;
        while k < i
            invariant
                pos <= k <= i <= v.len(),
                line@ == v@.subrange(pos as int, k as int),
            decreases i - k,
        {
            line.push(v[k]);
            assert(v@.subrange(pos as int, k + 1) == v@.subrange(pos as int, k as int).push(v@[k as int]));
            k += 1;
        }
        let ghost old_res = res@;
        if i == v.len() {
            res.push(line);
            assert(line@ == rest);
            assert(byte_lines(rest) == seq![rest]);
            assert(byte_views(res@) =~= byte_views(old_res).push(rest));
            pos = v.len();
            assert(byte_lines(v@.skip(pos as int)) =~= Seq::<Seq<u8>>::empty()) by {
                assert(v@.skip(pos as int).len() == 0);
            }
            assert(byte_lines(v@) =~= byte_views(res@) + byte_lines(v@.skip(pos as int)));
        } else {
            if line.len() > 0 && line[line.len() - 1] == 13 {
                line.pop();
            }
            res.push(line);
            assert(rest.take(i - pos) == v@.subrange(pos as int, i as int));
            assert(rest.skip(i - pos + 1) == v@.skip(i + 1));
            assert(byte_lines(rest) == seq![strip_cr_bytes(rest.take(i - pos))] + byte_lines(
                rest.skip(i - pos + 1),
            ));
            assert(byte_views(res@) =~= byte_views(old_res).push(strip_cr_bytes(rest.take(i - pos))));
            pos = i + 1;
            assert(byte_lines(v@) =~= byte_views(res@) + byte_lines(v@.skip(pos as int)));
        }
    }
    assert(byte_lines(v@.skip(pos as int)) =~= Seq::<Seq<u8>>::empty()) by {
        assert(v@.skip(pos as int).len() == 0);
    }
    assert(byte_lines(v@) =~= byte_views(res@));
    res
}

/// There are at most as many lines as bytes.
pub proof fn lemma_byte_lines_len(s: Seq<u8>)
    ensures
        byte_lines(s).len() <= s.len(),
    decreases s.len(),
{
    if s.len() > 0 {
        let i = first_byte(s, 10);
        lemma_first_byte_bounds(s, 10);
        if 0 <= i < s.len() {
            lemma_byte_lines_len(s.skip(i + 1));
        }
    }
}

proof fn lemma_first_byte_bounds(s: Seq<u8>, b: u8)
    ensures
        0 <= first_byte(s, b) <= s.len(),
    decreases s.len(),
{
    if s.len() > 0 && s[0] != b {
        lemma_first_byte_bounds(s.drop_first(), b);
    }
}

} // verus!
