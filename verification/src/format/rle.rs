//! The RLE pattern format: `#` comment lines, a header line `x = W, y = H, rule = R`,
//! then runs of dead cells (`b`), live cells (`o`) and line ends (`$`), closed by `!`.

use vstd::prelude::*;

use crate::format::rle_bounds::{cells_within, empty_line_ends_at_left};

use crate::format::plaintext::{copy_strings, push_chars, strings_view};
use crate::format::{
    byte_lines, byte_views, decode_utf8, split_byte_lines, split_lines, views, Format, FormatError,
};
use crate::position::Position;
use crate::rule::{conways_birth, conways_survival, parse_rule, rule_notation, Rule};
use crate::text::{
    chars_of, lines, nat_decimal, u128_decimal, decimal_value, find_from, first_in, in_class, is_whitespace, is_whitespace_exec,
    lemma_first_in_bounds, lemma_first_in_take, parse_usize, parse_usize_at, split_bounds,
    split_on, string_of, sub_chars, trim, trim_bounds, CharClass,
};

verus! {

/// What a run of an RLE content line stands for.
#[derive(Clone, Copy, Debug, PartialEq, Eq, Structural)]
pub enum RleTag {
    /// `b`: dead cells.
    DeadCell,
    /// `o`, or any other tag that is not white space: live cells.
    AliveCell,
    /// `$`: ends of lines.
    EndOfLine,
}

/// A run of cells of a pattern in the RLE format, as the pattern holds it: first
/// `pad_lines` line ends, then `pad_dead_cells` dead cells, then `live_cells` live
/// cells.
#[derive(Clone, Copy, Debug, PartialEq, Eq, Structural)]
pub struct RleRunsTriple {
    pub pad_lines: usize,
    pub pad_dead_cells: usize,
    pub live_cells: usize,
}

/// The size and rule of an RLE header line: width, height, and the birth and
/// survival tables.
pub struct RleHeaderModel {
    pub width: usize,
    pub height: usize,
    pub birth: Seq<bool>,
    pub survival: Seq<bool>,
}

/// The name and value of a header field `name = value`, both trimmed, or `None`
/// when the field has no `'='`.
pub open spec fn header_field(f: Seq<char>) -> Option<(Seq<char>, Seq<char>)> {
    let i = first_in(f, CharClass::Exactly('='));
    if 0 <= i < f.len() {
        Some((trim(f.take(i)), trim(f.skip(i + 1))))
    } else {
        None
    }
}

/// The fields of a header line in order, or the error of the first that cannot be
/// read: a fourth field, or one without `'='`.
pub open spec fn header_fields(fs: Seq<Seq<char>>) -> Result<Seq<(Seq<char>, Seq<char>)>, FormatError>
    decreases fs.len(),
{
    if fs.len() == 0 {
        Ok(seq![])
    } else {
        match header_fields(fs.drop_last()) {
            Err(e) => Err(e),
            Ok(v) => if fs.len() > 3 {
                Err(FormatError::TooManyFields)
            } else {
                match header_field(fs.last()) {
                    None => Err(FormatError::HeaderFieldWithoutEquals),
                    Some(p) => Ok(v.push(p)),
                }
            },
        }
    }
}

/// The characters `"rule"`.
pub open spec fn rule_name() -> Seq<char> {
    seq!['r', 'u', 'l', 'e']
}

/// The header that a header line gives: fields split at `','`, `x` and `y` with
/// their numbers, and an optional `rule` (Conway's Game of Life when absent).
pub open spec fn rle_header(line: Seq<char>) -> Result<RleHeaderModel, FormatError> {
    match header_fields(split_on(line, ',')) {
        Err(e) => Err(e),
        Ok(fs) => if fs.len() < 2 {
            Err(FormatError::TooFewFields)
        } else if fs[0].0 != seq!['x'] {
            Err(FormatError::UnexpectedVariable)
        } else {
            match parse_usize(fs[0].1) {
                None => Err(FormatError::InvalidValue),
                Some(w) => if fs[1].0 != seq!['y'] {
                    Err(FormatError::UnexpectedVariable)
                } else {
                    match parse_usize(fs[1].1) {
                        None => Err(FormatError::InvalidValue),
                        Some(h) => if fs.len() > 2 {
                            if fs[2].0 != rule_name() {
                                Err(FormatError::UnexpectedVariable)
                            } else {
                                match parse_rule(fs[2].1) {
                                    None => Err(FormatError::InvalidValue),
                                    Some((b, s)) => Ok(
                                        RleHeaderModel { width: w, height: h, birth: b, survival: s },
                                    ),
                                }
                            }
                        } else {
                            Ok(
                                RleHeaderModel {
                                    width: w,
                                    height: h,
                                    birth: conways_birth(),
                                    survival: conways_survival(),
                                },
                            )
                        },
                    }
                },
            }
        },
    }
}

/// The header of a pattern in the RLE format.
#[derive(Clone, Copy, Debug)]
pub struct RleHeader {
    pub width: usize,
    pub height: usize,
    pub rule: Rule,
}

impl RleHeader {
    pub open spec fn matches(self, m: RleHeaderModel) -> bool {
        self.width == m.width && self.height == m.height && self.rule.birth_table() == m.birth
            && self.rule.survival_table() == m.survival
    }
}

/// Whether `v[from..to]` is exactly `word`.
fn chars_equal(v: &Vec<char>, from: usize, to: usize, word: &[char]) -> (r: bool)
    requires
        from <= to <= v.len(),
    ensures
        r == (v@.subrange(from as int, to as int) == word@),
{
    if to - from != word.len() {
        return false;
    }
    let mut i: usize = 0;
    while i < word.len()
        invariant
            to - from == word.len(),
            from <= to <= v.len(),
            0 <= i <= word.len(),
            forall|j: int| 0 <= j < i ==> v@[from + j] == word@[j],
        decreases word.len() - i,
    {
        if v[from + i] != word[i] {
            assert(v@.subrange(from as int, to as int)[i as int] != word@[i as int]);
            return false;
        }
        i += 1;
    }
    assert(v@.subrange(from as int, to as int) =~= word@);
    true
}

/// Reads a header line.
fn parse_header_line(v: &Vec<char>) -> (res: Result<RleHeader, FormatError>)
    ensures
        match rle_header(v@) {
            Ok(m) => res matches Ok(h) && h.matches(m),
            Err(e) => res == Err::<RleHeader, FormatError>(e),
        },
{
    let bounds = split_bounds(v, ',');
    let ghost fs = split_on(v@, ',');
    // Name and value bounds of the fields, trimmed.
    let mut fields: Vec<((usize, usize), (usize, usize))> = Vec::new();
    let mut k: usize = 0;
    while k < bounds.len()
        invariant
            0 <= k <= bounds.len() == fs.len(),
            fs == split_on(v@, ','),
            forall|i: int|
                0 <= i < bounds@.len() ==> #[trigger] bounds@[i].0 <= bounds@[i].1 <= v@.len()
                    && v@.subrange(bounds@[i].0 as int, bounds@[i].1 as int) == fs[i],
            header_fields(fs.take(k as int)) matches Ok(hf) && hf.len() == fields@.len() && forall|
                i: int,
            |
                0 <= i < fields@.len() ==> {
                    let f = #[trigger] fields@[i];
                    f.0.0 <= f.0.1 <= v@.len() && f.1.0 <= f.1.1 <= v@.len() && v@.subrange(
                        f.0.0 as int,
                        f.0.1 as int,
                    ) == hf[i].0 && v@.subrange(f.1.0 as int, f.1.1 as int) == hf[i].1
                },
        decreases bounds.len() - k,
    {
        assert(fs.take(k + 1).drop_last() == fs.take(k as int));
        assert(fs.take(k + 1).last() == fs[k as int]);
        let ghost hf = header_fields(fs.take(k as int))->Ok_0;
        if k > 2 {
            proof {
                lemma_header_fields_error_stays(fs, k + 1);
            }
            return Err(FormatError::TooManyFields);
        }
        let (s, e) = bounds[k];
        let ghost f = fs[k as int];
        let eq = find_from(v, s, CharClass::Exactly('='));
        proof {
            let t = v@.skip(s as int);
            lemma_first_in_bounds(t, CharClass::Exactly('='));
            assert(t.take(e - s) == f);
            lemma_first_in_take(t, CharClass::Exactly('='), e - s);
        }
        if eq >= e {
            proof {
                lemma_header_fields_error_stays(fs, k + 1);
            }
            return Err(FormatError::HeaderFieldWithoutEquals);
        }
        let name = trim_bounds(v, s, eq);
        let value = trim_bounds(v, eq + 1, e);
        proof {
            assert(f.take(eq - s) == v@.subrange(s as int, eq as int));
            assert(f.skip(eq - s + 1) == v@.subrange(eq + 1, e as int));
        }
        let ghost before = fields@;
        fields.push((name, value));
        proof {
            let nhf = header_fields(fs.take(k + 1))->Ok_0;
            assert(nhf == hf.push(header_field(f)->Some_0));
            assert forall|i: int| 0 <= i < fields@.len() implies {
                let f = #[trigger] fields@[i];
                f.0.0 <= f.0.1 <= v@.len() && f.1.0 <= f.1.1 <= v@.len() && v@.subrange(
                    f.0.0 as int,
                    f.0.1 as int,
                ) == nhf[i].0 && v@.subrange(f.1.0 as int, f.1.1 as int) == nhf[i].1
            } by {
                if i < before.len() {
                    assert(fields@[i] == before[i]);
                }
            }
        }
        k += 1;
    }
    assert(fs.take(k as int) == fs);
    let ghost hf = header_fields(fs)->Ok_0;
    if fields.len() < 2 {
        return Err(FormatError::TooFewFields);
    }
    let x_word: [char; 1] = ['x'];
    let y_word: [char; 1] = ['y'];
    let rule_word: [char; 4] = ['r', 'u', 'l', 'e'];
    assert(x_word@ =~= seq!['x']);
    assert(y_word@ =~= seq!['y']);
    assert(rule_word@ =~= rule_name());
    let f0 = fields[0];
    let f1 = fields[1];
    if !chars_equal(v, f0.0.0, f0.0.1, x_word.as_slice()) {
        return Err(FormatError::UnexpectedVariable);
    }
    let width = match parse_usize_at(v, f0.1.0, f0.1.1) {
        None => {
            return Err(FormatError::InvalidValue);
        },
        Some(w) => w,
    };
    if !chars_equal(v, f1.0.0, f1.0.1, y_word.as_slice()) {
        return Err(FormatError::UnexpectedVariable);
    }
    let height = match parse_usize_at(v, f1.1.0, f1.1.1) {
        None => {
            return Err(FormatError::InvalidValue);
        },
        Some(h) => h,
    };
    if fields.len() > 2 {
        let f2 = fields[2];
        if !chars_equal(v, f2.0.0, f2.0.1, rule_word.as_slice()) {
            return Err(FormatError::UnexpectedVariable);
        }
        let rule_text = string_of(&sub_chars(v, f2.1.0, f2.1.1));
        match Rule::parse_str(rule_text.as_str()) {
            Err(_) => Err(FormatError::InvalidValue),
            Ok(rule) => Ok(RleHeader { width, height, rule }),
        }
    } else {
        Ok(RleHeader { width, height, rule: Rule::conways_life() })
    }
}

/// Once the fields of a header line fail, more fields do not mend them.
proof fn lemma_header_fields_error_stays(fs: Seq<Seq<char>>, k: int)
    requires
        0 <= k <= fs.len(),
        header_fields(fs.take(k)) is Err,
    ensures
        header_fields(fs) == header_fields(fs.take(k)),
    decreases fs.len() - k,
{
    if k < fs.len() {
        assert(fs.take(k + 1).drop_last() == fs.take(k));
        lemma_header_fields_error_stays(fs, k + 1);
    } else {
        assert(fs.take(k) == fs);
    }
}

/// The runs of a content line, and whether it ends the pattern with `'!'`; or the
/// error of the first run that cannot be read. Each run is white space, then an
/// optional count in ASCII digits (1 when absent), then a tag: `'!'` (with no count)
/// ends the pattern and the rest of the line is ignored; `'b'` is dead cells, `'$'`
/// line ends, any other character but white space (`'o'`, and any other letter or
/// sign, ASCII or not) live cells. A count with no tag is refused; so is a count that
/// does not fit in `usize` (`RunCountOverflow`).
pub open spec fn content_runs(line: Seq<char>) -> Result<(Seq<(usize, RleTag)>, bool), FormatError>
    decreases line.len(),
{
    let a = first_in(line, CharClass::NotWhitespace);
    let rem = line.skip(a);
    let d = first_in(rem, CharClass::NotAsciiDigit);
    let digits = rem.take(d);
    let rest = rem.skip(d);
    if a < 0 || a > line.len() || d < 0 || d > rem.len() {
        Err(FormatError::WrongContentFormat)
    } else if rest.len() == 0 {
        if digits.len() == 0 {
            Ok((seq![], false))
        } else {
            Err(FormatError::WrongContentFormat)
        }
    } else if digits.len() > 0 && decimal_value(digits) > usize::MAX {
        Err(FormatError::RunCountOverflow)
    } else if rest[0] == '!' {
        if digits.len() == 0 {
            Ok((seq![], true))
        } else {
            Err(FormatError::WrongContentFormat)
        }
    } else if is_whitespace(rest[0]) {
        Err(FormatError::WrongContentFormat)
    } else {
        let count: usize = if digits.len() == 0 {
            1
        } else {
            decimal_value(digits) as usize
        };
        let tag = if rest[0] == 'b' {
            RleTag::DeadCell
        } else if rest[0] == '$' {
            RleTag::EndOfLine
        } else {
            RleTag::AliveCell
        };
        match content_runs(rest.drop_first()) {
            Err(e) => Err(e),
            Ok((rs, t)) => Ok((seq![(count, tag)] + rs, t)),
        }
    }
}

/// `r` with the runs `prefix` put before its runs.
pub open spec fn prepend_runs(
    prefix: Seq<(usize, RleTag)>,
    r: Result<(Seq<(usize, RleTag)>, bool), FormatError>,
) -> Result<(Seq<(usize, RleTag)>, bool), FormatError> {
    match r {
        Err(e) => Err(e),
        Ok((rs, t)) => Ok((prefix + rs, t)),
    }
}

/// Reads a content line.
fn parse_content_line(line: &Vec<char>) -> (res: Result<(Vec<(usize, RleTag)>, bool), FormatError>)
    ensures
        match content_runs(line@) {
            Ok((rs, t)) => res matches Ok((v, t2)) && v@ == rs && t2 == t,
            Err(e) => res == Err::<(Vec<(usize, RleTag)>, bool), FormatError>(e),
        },
{
    let mut buf: Vec<(usize, RleTag)> = Vec::new();
    let mut pos: usize = 0;
    assert(line@.skip(0) == line@);
    assert(buf@ + Seq::<(usize, RleTag)>::empty() == buf@);
    loop
        invariant
            pos <= line.len(),
            content_runs(line@) == prepend_runs(buf@, content_runs(line@.skip(pos as int))),
        decreases line.len() - pos,
    {
        let ghost s = line@.skip(pos as int);
        let a = find_from(line, pos, CharClass::NotWhitespace);
        proof {
            lemma_first_in_bounds(s, CharClass::NotWhitespace);
            assert(s.skip(a - pos) == line@.skip(a as int));
        }
        let d = find_from(line, a, CharClass::NotAsciiDigit);
        let ghost rem = line@.skip(a as int);
        proof {
            lemma_first_in_bounds(rem, CharClass::NotAsciiDigit);
            assert(rem.take(d - a) == line@.subrange(a as int, d as int));
            assert(rem.skip(d - a) == line@.skip(d as int));
        }
        if d == line.len() {
            if d == a {
                assert(prepend_runs(buf@, Ok((seq![], false))) == Ok::<
                    (Seq<(usize, RleTag)>, bool),
                    FormatError,
                >((buf@, false))) by {
                    assert(buf@ + Seq::<(usize, RleTag)>::empty() == buf@);
                }
                return Ok((buf, false));
            } else {
                return Err(FormatError::WrongContentFormat);
            }
        }
        let c = line[d];
        assert(line@.skip(d as int)[0] == c);
        let count: usize = if d > a {
            proof {
                assert forall|i: int| 0 <= i < d - a implies crate::text::is_ascii_digit(
                    #[trigger] line@.subrange(a as int, d as int)[i],
                ) by {
                    assert(line@.subrange(a as int, d as int)[i] == rem[i]);
                    assert(!in_class(rem[i], CharClass::NotAsciiDigit));
                }
            }
            match crate::text::digits_value(line, a, d) {
                None => {
                    return Err(FormatError::RunCountOverflow);
                },
                Some(n) => n,
            }
        } else {
            1
        };
        if c == '!' {
            if d == a {
                assert(prepend_runs(buf@, Ok((seq![], true))) == Ok::<
                    (Seq<(usize, RleTag)>, bool),
                    FormatError,
                >((buf@, true))) by {
                    assert(buf@ + Seq::<(usize, RleTag)>::empty() == buf@);
                }
                return Ok((buf, true));
            } else {
                return Err(FormatError::WrongContentFormat);
            }
        }
        if is_whitespace_exec(c) {
            return Err(FormatError::WrongContentFormat);
        }
        let tag = if c == 'b' {
            RleTag::DeadCell
        } else if c == '$' {
            RleTag::EndOfLine
        } else {
            RleTag::AliveCell
        };
        let ghost before = buf@;
        buf.push((count, tag));
        proof {
            assert(line@.skip(d as int).drop_first() == line@.skip(d + 1));
            let r = content_runs(line@.skip(d + 1));
            assert(content_runs(s) == prepend_runs(seq![(count, tag)], r));
            assert(buf@ == before + seq![(count, tag)]);
            match r {
                Ok((rs, t)) => {
                    assert(before + (seq![(count, tag)] + rs) == buf@ + rs);
                },
                Err(e) => {},
            }
        }
        pos = d + 1;
    }
}

/// The position after the runs `runs` from `(x, y)` in a pattern of the given width
/// and height, or the error of the first run that leaves it: a line end past the last
/// line, live or dead cells past the width, or a position beyond `usize`.
pub open spec fn advance_runs(w: usize, h: usize, x: usize, y: usize, runs: Seq<(usize, RleTag)>) -> Result<
    (usize, usize),
    FormatError,
>
    decreases runs.len(),
{
    if runs.len() == 0 {
        Ok((x, y))
    } else {
        match advance_runs(w, h, x, y, runs.drop_last()) {
            Err(e) => Err(e),
            Ok((cx, cy)) => {
                let n = runs.last().0;
                if runs.last().1 == RleTag::EndOfLine {
                    if cy + n > usize::MAX {
                        Err(FormatError::RunCountOverflow)
                    } else if cy + n < h {
                        Ok((0, (cy + n) as usize))
                    } else {
                        Err(FormatError::ExceedsHeight)
                    }
                } else {
                    if cx + n > usize::MAX {
                        Err(FormatError::RunCountOverflow)
                    } else if cx + n <= w {
                        Ok(((cx + n) as usize, cy))
                    } else {
                        Err(FormatError::ExceedsWidth)
                    }
                }
            },
        }
    }
}

/// The position after the runs of one content line; a pattern of height 0 takes no runs.
pub open spec fn rle_advance(w: usize, h: usize, x: usize, y: usize, runs: Seq<(usize, RleTag)>) -> Result<
    (usize, usize),
    FormatError,
> {
    if runs.len() > 0 && h == 0 {
        Err(FormatError::ExceedsHeight)
    } else {
        advance_runs(w, h, x, y, runs)
    }
}

/// Once the runs leave the pattern, more runs do not bring them back.
proof fn lemma_advance_error_stays(
    w: usize,
    h: usize,
    x: usize,
    y: usize,
    runs: Seq<(usize, RleTag)>,
    k: int,
)
    requires
        0 <= k <= runs.len(),
        advance_runs(w, h, x, y, runs.take(k)) is Err,
    ensures
        advance_runs(w, h, x, y, runs) == advance_runs(w, h, x, y, runs.take(k)),
    decreases runs.len() - k,
{
    if k < runs.len() {
        assert(runs.take(k + 1).drop_last() == runs.take(k));
        lemma_advance_error_stays(w, h, x, y, runs, k + 1);
    } else {
        assert(runs.take(k) == runs);
    }
}

/// Advancing over two series of runs is advancing over the first, then the second.
pub proof fn lemma_advance_concat(
    w: usize,
    h: usize,
    x: usize,
    y: usize,
    a: Seq<(usize, RleTag)>,
    b: Seq<(usize, RleTag)>,
)
    ensures
        advance_runs(w, h, x, y, a + b) == match advance_runs(w, h, x, y, a) {
            Err(e) => Err(e),
            Ok((ax, ay)) => advance_runs(w, h, ax, ay, b),
        },
    decreases b.len(),
{
    if b.len() == 0 {
        assert(a + b == a);
    } else {
        assert((a + b).drop_last() == a + b.drop_last());
        assert((a + b).last() == b.last());
        lemma_advance_concat(w, h, x, y, a, b.drop_last());
    }
}

/// No runs at all: nothing is padded and nothing is live.
pub open spec fn triple_zero() -> RleRunsTriple {
    RleRunsTriple { pad_lines: 0, pad_dead_cells: 0, live_cells: 0 }
}

/// The triples that the runs fold into, and the triple still being filled: a triple
/// with live cells is closed by the next run that is not of live cells; line ends add
/// to its padding lines and drop its padding dead cells, dead cells add to its padding
/// dead cells, live cells to its live cells.
pub open spec fn triples_fold(runs: Seq<(usize, RleTag)>) -> (Seq<RleRunsTriple>, RleRunsTriple)
    decreases runs.len(),
{
    if runs.len() == 0 {
        (seq![], triple_zero())
    } else {
        let (buf, cur) = triples_fold(runs.drop_last());
        let n = runs.last().0;
        let tag = runs.last().1;
        let (buf2, next) = if cur.live_cells > 0 && tag != RleTag::AliveCell {
            (buf.push(cur), triple_zero())
        } else {
            (buf, cur)
        };
        (
            buf2,
            match tag {
                RleTag::AliveCell => RleRunsTriple {
                    pad_lines: next.pad_lines,
                    pad_dead_cells: next.pad_dead_cells,
                    live_cells: (next.live_cells + n) as usize,
                },
                RleTag::DeadCell => RleRunsTriple {
                    pad_lines: next.pad_lines,
                    pad_dead_cells: (next.pad_dead_cells + n) as usize,
                    live_cells: next.live_cells,
                },
                RleTag::EndOfLine => RleRunsTriple {
                    pad_lines: (next.pad_lines + n) as usize,
                    pad_dead_cells: 0,
                    live_cells: next.live_cells,
                },
            },
        )
    }
}

/// The triples of a series of runs: the folded triples, and the last one when it has
/// live cells.
pub open spec fn runs_to_triples(runs: Seq<(usize, RleTag)>) -> Seq<RleRunsTriple> {
    let (buf, cur) = triples_fold(runs);
    if cur.live_cells > 0 {
        buf.push(cur)
    } else {
        buf
    }
}

/// Each triple has live cells.
pub open spec fn triples_live(ts: Seq<RleRunsTriple>) -> bool {
    forall|i: int| 0 <= i < ts.len() ==> (#[trigger] ts[i]).live_cells > 0
}

/// The triples that the fold has closed all have live cells.
proof fn lemma_fold_live(runs: Seq<(usize, RleTag)>)
    ensures
        triples_live(triples_fold(runs).0),
    decreases runs.len(),
{
    if runs.len() > 0 {
        lemma_fold_live(runs.drop_last());
        let (buf, cur) = triples_fold(runs.drop_last());
        if cur.live_cells > 0 && runs.last().1 != RleTag::AliveCell {
            assert forall|i: int| 0 <= i < buf.push(cur).len() implies (#[trigger] buf.push(
                cur,
            )[i]).live_cells > 0 by {
                if i < buf.len() {
                    assert(buf.push(cur)[i] == buf[i]);
                }
            }
        }
    }
}

/// Every triple that runs fold into has live cells.
pub proof fn lemma_runs_to_triples_live(runs: Seq<(usize, RleTag)>)
    ensures
        triples_live(runs_to_triples(runs)),
{
    lemma_fold_live(runs);
    let (buf, cur) = triples_fold(runs);
    if cur.live_cells > 0 {
        assert forall|i: int| 0 <= i < buf.push(cur).len() implies (#[trigger] buf.push(cur)[i]).live_cells
            > 0 by {
            if i < buf.len() {
                assert(buf.push(cur)[i] == buf[i]);
            }
        }
    }
}

/// The position after the triples, from `(0, 0)`: each triple moves down by its
/// padding lines (back to x = 0 when there are any), then right by its padding dead
/// cells and its live cells.
pub open spec fn walk(ts: Seq<RleRunsTriple>) -> (int, int)
    decreases ts.len(),
{
    if ts.len() == 0 {
        (0, 0)
    } else {
        let (x, y) = walk(ts.drop_last());
        let t = ts.last();
        let x0 = if t.pad_lines > 0 {
            0
        } else {
            x
        };
        (x0 + t.pad_dead_cells + t.live_cells, y + t.pad_lines)
    }
}

/// Folds runs that stay within the width and height into triples.
fn convert_runs_to_triples(runs: &Vec<(usize, RleTag)>, w: usize, h: usize) -> (res: Vec<RleRunsTriple>)
    requires
        advance_runs(w, h, 0, 0, runs@) is Ok,
    ensures
        res@ == runs_to_triples(runs@),
{
    let mut buf: Vec<RleRunsTriple> = Vec::new();
    let mut cur = RleRunsTriple { pad_lines: 0, pad_dead_cells: 0, live_cells: 0 };
    let ghost mut x: usize = 0;
    let ghost mut y: usize = 0;
    assert(runs@.take(0) =~= Seq::<(usize, RleTag)>::empty());
    for i in 0..runs.len()
        invariant
            advance_runs(w, h, 0, 0, runs@) is Ok,
            (buf@, cur) == triples_fold(runs@.take(i as int)),
            advance_runs(w, h, 0, 0, runs@.take(i as int)) == Ok::<(usize, usize), FormatError>(
                (x, y),
            ),
            cur.pad_lines <= y,
            cur.pad_dead_cells + cur.live_cells <= x,
    {
        let ghost pre = runs@.take(i as int);
        assert(runs@.take(i + 1).drop_last() == pre);
        assert(runs@.take(i + 1).last() == runs@[i as int]);
        proof {
            if advance_runs(w, h, 0, 0, runs@.take(i + 1)) is Err {
                lemma_advance_error_stays(w, h, 0, 0, runs@, i + 1);
            }
        }
        let (n, tag) = runs[i];
        if cur.live_cells > 0 && tag != RleTag::AliveCell {
            buf.push(cur);
            cur = RleRunsTriple { pad_lines: 0, pad_dead_cells: 0, live_cells: 0 };
        }
        assert(tag != RleTag::EndOfLine ==> x + n <= w);
        assert(tag == RleTag::EndOfLine ==> y + n < h);
        match tag {
            RleTag::AliveCell => {
                cur.live_cells = cur.live_cells + n;
                proof {
                    x = (x + n) as usize;
                }
            },
            RleTag::DeadCell => {
                cur.pad_dead_cells = cur.pad_dead_cells + n;
                proof {
                    x = (x + n) as usize;
                }
            },
            RleTag::EndOfLine => {
                cur.pad_lines = cur.pad_lines + n;
                cur.pad_dead_cells = 0;
                proof {
                    x = 0;
                    y = (y + n) as usize;
                }
            },
        }
    }
    assert(runs@.take(runs.len() as int) == runs@);
    if cur.live_cells > 0 {
        buf.push(cur);
    }
    buf
}

/// Computes `rle_advance` for the runs of one content line.
fn advanced_position(w: usize, h: usize, x: usize, y: usize, runs: &Vec<(usize, RleTag)>) -> (res: Result<
    (usize, usize),
    FormatError,
>)
    ensures
        res == rle_advance(w, h, x, y, runs@),
{
    if runs.len() > 0 && h == 0 {
        return Err(FormatError::ExceedsHeight);
    }
    let mut cx = x;
    let mut cy = y;
    assert(runs@.take(0) =~= Seq::<(usize, RleTag)>::empty());
    for i in 0..runs.len()
        invariant
            runs@.len() > 0 ==> h > 0,
            advance_runs(w, h, x, y, runs@.take(i as int)) == Ok::<(usize, usize), FormatError>((cx, cy)),
    {
        assert(runs@.take(i + 1).drop_last() == runs@.take(i as int));
        assert(runs@.take(i + 1).last() == runs@[i as int]);
        let (n, tag) = runs[i];
        if tag == RleTag::EndOfLine {
            if n > usize::MAX - cy {
                proof {
                    lemma_advance_error_stays(w, h, x, y, runs@, i + 1);
                }
                return Err(FormatError::RunCountOverflow);
            }
            if cy + n >= h {
                proof {
                    lemma_advance_error_stays(w, h, x, y, runs@, i + 1);
                }
                return Err(FormatError::ExceedsHeight);
            }
            cx = 0;
            cy = cy + n;
        } else {
            if n > usize::MAX - cx {
                proof {
                    lemma_advance_error_stays(w, h, x, y, runs@, i + 1);
                }
                return Err(FormatError::RunCountOverflow);
            }
            if cx + n > w {
                proof {
                    lemma_advance_error_stays(w, h, x, y, runs@, i + 1);
                }
                return Err(FormatError::ExceedsWidth);
            }
            cx = cx + n;
        }
    }
    assert(runs@.take(runs.len() as int) == runs@);
    Ok((cx, cy))
}

/// What an RLE parser has read so far: the comment lines, the header once read, the
/// runs of the content lines, the position they lead to, and whether `'!'` was read.
pub struct RleModel {
    pub comments: Seq<Seq<char>>,
    pub header: Option<RleHeaderModel>,
    pub runs: Seq<(usize, RleTag)>,
    pub x: usize,
    pub y: usize,
    pub finished: bool,
}

/// A line before the header that is empty or starts with `'#'` is a comment line.
pub open spec fn is_comment_line(line: Seq<char>) -> bool {
    line.len() == 0 || line[0] == '#'
}

/// The state of an RLE parser after one more line, or the error the line gives.
/// Before the header, comment lines are kept and the first other line is the header;
/// after it, content lines are read until `'!'`, and later lines are ignored.
pub open spec fn rle_step(st: RleModel, line: Seq<char>) -> Result<RleModel, FormatError> {
    match st.header {
        Some(hd) => if st.finished {
            Ok(st)
        } else {
            match content_runs(line) {
                Err(e) => Err(e),
                Ok((rs, t)) => match rle_advance(hd.width, hd.height, st.x, st.y, rs) {
                    Err(e) => Err(e),
                    Ok((x, y)) => Ok(
                        RleModel {
                            comments: st.comments,
                            header: st.header,
                            runs: st.runs + rs,
                            x,
                            y,
                            finished: t,
                        },
                    ),
                },
            }
        },
        None => if is_comment_line(line) {
            Ok(
                RleModel {
                    comments: st.comments.push(line),
                    header: st.header,
                    runs: st.runs,
                    x: st.x,
                    y: st.y,
                    finished: st.finished,
                },
            )
        } else {
            match rle_header(line) {
                Err(e) => Err(e),
                Ok(h) => Ok(
                    RleModel {
                        comments: st.comments,
                        header: Some(h),
                        runs: st.runs,
                        x: st.x,
                        y: st.y,
                        finished: st.finished,
                    },
                ),
            }
        },
    }
}

/// The state of an RLE parser that has read nothing.
pub open spec fn rle_start() -> RleModel {
    RleModel { comments: seq![], header: None, runs: seq![], x: 0, y: 0, finished: false }
}

/// The outcome of reading the lines `ls`: the state after the last one, or the error
/// of the first one that cannot be read.
pub open spec fn rle_read(ls: Seq<Seq<char>>) -> Result<RleModel, FormatError>
    decreases ls.len(),
{
    if ls.len() == 0 {
        Ok(rle_start())
    } else {
        match rle_read(ls.drop_last()) {
            Err(e) => Err(e),
            Ok(st) => rle_step(st, ls.last()),
        }
    }
}

/// The outcome of reading the byte lines `bls`: each must be UTF-8 text, read as
/// `rle_step` reads a line; the state after the last one, or the error of the first
/// one that cannot be read.
pub open spec fn rle_read_bytes(bls: Seq<Seq<u8>>) -> Result<RleModel, FormatError>
    decreases bls.len(),
{
    if bls.len() == 0 {
        Ok(rle_start())
    } else {
        match rle_read_bytes(bls.drop_last()) {
            Err(e) => Err(e),
            Ok(st) => if vstd::utf8::valid_utf8(bls.last()) {
                rle_step(st, vstd::utf8::decode_utf8(bls.last()))
            } else {
                Err(FormatError::InvalidUtf8)
            },
        }
    }
}

/// The pattern that the byte lines `bls` give, or the error of reading them.
pub open spec fn rle_parse_bytes(bls: Seq<Seq<u8>>) -> Result<RleParsed, FormatError> {
    match rle_read_bytes(bls) {
        Err(e) => Err(e),
        Ok(st) => if st.finished && st.header is Some {
            Ok(
                RleParsed {
                    header: st.header->Some_0,
                    comments: st.comments,
                    contents: runs_to_triples(st.runs),
                },
            )
        } else {
            Err(FormatError::TerminatorNotFound)
        },
    }
}

/// Once a read of byte lines fails, reading more lines does not mend it.
proof fn lemma_rle_bytes_error_stays(ls: Seq<Seq<u8>>, k: int)
    requires
        0 <= k <= ls.len(),
        rle_read_bytes(ls.take(k)) is Err,
    ensures
        rle_read_bytes(ls) == rle_read_bytes(ls.take(k)),
    decreases ls.len() - k,
{
    if k < ls.len() {
        assert(ls.take(k + 1).drop_last() == ls.take(k));
        lemma_rle_bytes_error_stays(ls, k + 1);
    } else {
        assert(ls.take(k) == ls);
    }
}

/// A pattern read from RLE text: its header, comment lines and runs of cells.
pub struct RleParsed {
    pub header: RleHeaderModel,
    pub comments: Seq<Seq<char>>,
    pub contents: Seq<RleRunsTriple>,
}

/// The pattern that the lines `ls` give, or the error of reading them: lines that
/// never reach `'!'` (or no header) are refused.
pub open spec fn rle_parse(ls: Seq<Seq<char>>) -> Result<RleParsed, FormatError> {
    match rle_read(ls) {
        Err(e) => Err(e),
        Ok(st) => if st.finished && st.header is Some {
            Ok(
                RleParsed {
                    header: st.header->Some_0,
                    comments: st.comments,
                    contents: runs_to_triples(st.runs),
                },
            )
        } else {
            Err(FormatError::TerminatorNotFound)
        },
    }
}

/// Reading the lines `ls` would need a count or position beyond `usize`.
pub open spec fn rle_lines_unreadable(ls: Seq<Seq<char>>) -> bool {
    rle_read(ls) == Err::<RleModel, FormatError>(FormatError::RunCountOverflow)
}

/// The runs a parser holds lead from the start to its position.
pub open spec fn rle_model_wf(m: RleModel) -> bool {
    match m.header {
        None => m.runs.len() == 0 && m.x == 0 && m.y == 0 && !m.finished,
        Some(hd) => advance_runs(hd.width, hd.height, 0, 0, m.runs) == Ok::<
            (usize, usize),
            FormatError,
        >((m.x, m.y)),
    }
}

pub proof fn lemma_step_wf(st: RleModel, line: Seq<char>)
    requires
        rle_model_wf(st),
    ensures
        rle_step(st, line) matches Ok(m) ==> rle_model_wf(m),
{
    if let Ok(m) = rle_step(st, line) {
        match st.header {
            Some(hd) => {
                if !st.finished {
                    let rs = content_runs(line)->Ok_0.0;
                    lemma_advance_concat(hd.width, hd.height, 0, 0, st.runs, rs);
                }
            },
            None => {
                if !is_comment_line(line) {
                    assert(m.runs.len() == 0);
                }
            },
        }
    }
}

/// Once a parse fails, reading more lines does not mend it.
proof fn lemma_rle_error_stays(ls: Seq<Seq<char>>, k: int)
    requires
        0 <= k <= ls.len(),
        rle_read(ls.take(k)) is Err,
    ensures
        rle_read(ls) == rle_read(ls.take(k)),
    decreases ls.len() - k,
{
    if k < ls.len() {
        assert(ls.take(k + 1).drop_last() == ls.take(k));
        lemma_rle_error_stays(ls, k + 1);
    } else {
        assert(ls.take(k) == ls);
    }
}

/// The view of the header a parser holds.
pub open spec fn header_view(h: Option<RleHeader>) -> Option<RleHeaderModel> {
    match h {
        Some(h) => Some(h.view()),
        None => None,
    }
}

impl RleHeader {
    pub open spec fn view(self) -> RleHeaderModel {
        RleHeaderModel {
            width: self.width,
            height: self.height,
            birth: self.rule.birth_table(),
            survival: self.rule.survival_table(),
        }
    }
}

/// Appends the runs `src` to `dst`.
fn append_runs(dst: &mut Vec<(usize, RleTag)>, src: &Vec<(usize, RleTag)>)
    ensures
        final(dst)@ == old(dst)@ + src@,
{
    for i in 0..src.len()
        invariant
            dst@ == old(dst)@ + src@.take(i as int),
    {
        assert(src@.take(i + 1) == src@.take(i as int).push(src@[i as int]));
        dst.push(src[i]);
    }
    assert(src@.take(src.len() as int) == src@);
}

/// An RLE parser: the state of `RleModel`, held in executable values.
struct RleParser {
    comments: Vec<String>,
    header: Option<RleHeader>,
    runs: Vec<(usize, RleTag)>,
    x: usize,
    y: usize,
    finished: bool,
}

impl RleParser {
    spec fn model(self) -> RleModel {
        RleModel {
            comments: strings_view(self.comments@),
            header: header_view(self.header),
            runs: self.runs@,
            x: self.x,
            y: self.y,
            finished: self.finished,
        }
    }

    fn new() -> (r: Self)
        ensures
            r.model() == rle_start(),
    {
        let r = RleParser {
            comments: Vec::new(),
            header: None,
            runs: Vec::new(),
            x: 0,
            y: 0,
            finished: false,
        };
        assert(strings_view(r.comments@) =~= seq![]);
        assert(r.runs@ =~= seq![]);
        r
    }

    /// Reads one more line.
    fn push(&mut self, line: &Vec<char>) -> (res: Result<(), FormatError>)
        ensures
            match rle_step(old(self).model(), line@) {
                Ok(m) => res is Ok && final(self).model() == m,
                Err(e) => res == Err::<(), FormatError>(e) && final(self).model() == old(self).model(),
            },
    {
        match &self.header {
            Some(h) => {
                if self.finished {
                    return Ok(());
                }
                let w = h.width;
                let ht = h.height;
                let (runs, terminated) = match parse_content_line(line) {
                    Err(e) => {
                        return Err(e);
                    },
                    Ok(r) => r,
                };
                let (nx, ny) = match advanced_position(w, ht, self.x, self.y, &runs) {
                    Err(e) => {
                        return Err(e);
                    },
                    Ok(p) => p,
                };
                append_runs(&mut self.runs, &runs);
                self.x = nx;
                self.y = ny;
                self.finished = terminated;
                Ok(())
            },
            None => {
                if line.len() == 0 || line[0] == '#' {
                    let ghost before = self.comments@;
                    self.comments.push(string_of(line));
                    assert(strings_view(self.comments@) =~= strings_view(before).push(line@));
                    Ok(())
                } else {
                    match parse_header_line(line) {
                        Err(e) => Err(e),
                        Ok(h) => {
                            self.header = Some(h);
                            Ok(())
                        },
                    }
                }
            },
        }
    }
}

/// The positions of the live cells of the triples, in order: for each triple, its
/// live cells from where its padding leaves off.
pub open spec fn rle_cells(ts: Seq<RleRunsTriple>) -> Seq<Position<usize>>
    decreases ts.len(),
{
    if ts.len() == 0 {
        seq![]
    } else {
        let (x, y) = walk(ts.drop_last());
        let t = ts.last();
        let x0 = (if t.pad_lines > 0 {
            0
        } else {
            x
        }) + t.pad_dead_cells;
        let y0 = y + t.pad_lines;
        rle_cells(ts.drop_last()) + Seq::new(
            t.live_cells as nat,
            |i: int| Position((x0 + i) as usize, y0 as usize),
        )
    }
}

/// The live cells of triples whose positions fit come in strictly ascending row
/// order, all before the position the triples lead to.
pub proof fn lemma_rle_cells_sorted(ts: Seq<RleRunsTriple>)
    requires
        cells_fit(ts),
    ensures
        crate::format::cells::cells_sorted(rle_cells(ts)),
        forall|k: int|
            0 <= k < rle_cells(ts).len() ==> {
                let c = #[trigger] rle_cells(ts)[k];
                c.1 < walk(ts).1 || (c.1 == walk(ts).1 && c.0 < walk(ts).0)
            },
        walk(ts).0 >= 0 && walk(ts).1 >= 0,
    decreases ts.len(),
{
    if ts.len() > 0 {
        let init = ts.drop_last();
        assert(cells_fit(init)) by {
            assert forall|k: int| 0 <= k <= init.len() implies #[trigger] walk(init.take(k)).0
                <= usize::MAX && walk(init.take(k)).1 <= usize::MAX by {
                assert(init.take(k) == ts.take(k));
            }
        }
        lemma_rle_cells_sorted(init);
        assert(ts.take(ts.len() as int) == ts);
        assert(walk(ts).0 <= usize::MAX && walk(ts).1 <= usize::MAX);
        let (x, y) = walk(init);
        let t = ts.last();
        let x0 = (if t.pad_lines > 0 {
            0
        } else {
            x
        }) + t.pad_dead_cells;
        let y0 = y + t.pad_lines;
        let a = rle_cells(init);
        let b = Seq::new(t.live_cells as nat, |i: int| Position((x0 + i) as usize, y0 as usize));
        let all = rle_cells(ts);
        assert(all == a + b);
        assert forall|i: int, j: int| 0 <= i < j < all.len() implies crate::format::cells::cell_lt(
            #[trigger] all[i],
            #[trigger] all[j],
        ) by {
            if j < a.len() {
                assert(all[i] == a[i]);
                assert(all[j] == a[j]);
            } else if i < a.len() {
                assert(all[i] == a[i]);
                assert(all[j] == b[j - a.len()]);
            } else {
                assert(all[i] == b[i - a.len()]);
                assert(all[j] == b[j - a.len()]);
            }
        }
        assert forall|k: int| 0 <= k < all.len() implies {
            let c = #[trigger] all[k];
            c.1 < walk(ts).1 || (c.1 == walk(ts).1 && c.0 < walk(ts).0)
        } by {
            if k < a.len() {
                assert(all[k] == a[k]);
            } else {
                assert(all[k] == b[k - a.len()]);
            }
        }
    }
}

/// Every position that the triples reach fits in `usize`.
pub open spec fn cells_fit(ts: Seq<RleRunsTriple>) -> bool {
    forall|k: int|
        0 <= k <= ts.len() ==> #[trigger] walk(ts.take(k)).0 <= usize::MAX && walk(ts.take(k)).1
            <= usize::MAX
}

/// The text of a run: its count when above 1, then its tag.
pub open spec fn run_token(count: usize, tag: char) -> Seq<char> {
    if count > 1 {
        nat_decimal(count as nat).push(tag)
    } else {
        seq![tag]
    }
}

/// The runs of a triple as text: line ends, dead cells, live cells, each when not zero.
pub open spec fn triple_tokens(t: RleRunsTriple) -> Seq<Seq<char>> {
    (if t.pad_lines > 0 {
        seq![run_token(t.pad_lines, '$')]
    } else {
        seq![]
    }) + (if t.pad_dead_cells > 0 {
        seq![run_token(t.pad_dead_cells, 'b')]
    } else {
        seq![]
    }) + (if t.live_cells > 0 {
        seq![run_token(t.live_cells, 'o')]
    } else {
        seq![]
    })
}

/// The runs of the triples as text, in order.
pub open spec fn content_tokens(ts: Seq<RleRunsTriple>) -> Seq<Seq<char>>
    decreases ts.len(),
{
    if ts.len() == 0 {
        seq![]
    } else {
        content_tokens(ts.drop_last()) + triple_tokens(ts.last())
    }
}

/// The longest content line of the RLE text.
pub open spec fn max_line_width() -> nat {
    70
}

/// Pieces of text laid out in lines, from the state `st`: the lines completed (each
/// ended by `'\n'`) and the line being filled. A piece that would make the line
/// longer than 70 characters starts a new line.
pub open spec fn wrap_from(st: (Seq<char>, Seq<char>), tokens: Seq<Seq<char>>) -> (Seq<char>, Seq<char>)
    decreases tokens.len(),
{
    if tokens.len() == 0 {
        st
    } else {
        let (out, buf) = wrap_from(st, tokens.drop_last());
        let s = tokens.last();
        if buf.len() + s.len() > max_line_width() {
            (out + buf + seq!['\n'], s)
        } else {
            (out, buf + s)
        }
    }
}

/// Pieces of text laid out in lines, from no text at all.
pub open spec fn wrap_tokens(tokens: Seq<Seq<char>>) -> (Seq<char>, Seq<char>) {
    wrap_from((seq![], seq![]), tokens)
}

/// Laying out two series of pieces is laying out the first, then the second.
pub proof fn lemma_wrap_concat(st: (Seq<char>, Seq<char>), a: Seq<Seq<char>>, b: Seq<Seq<char>>)
    ensures
        wrap_from(st, a + b) == wrap_from(wrap_from(st, a), b),
    decreases b.len(),
{
    if b.len() == 0 {
        assert(a + b == a);
    } else {
        assert((a + b).drop_last() == a + b.drop_last());
        assert((a + b).last() == b.last());
        lemma_wrap_concat(st, a, b.drop_last());
    }
}

/// The lines of the text, each ended by `'\n'`.
pub open spec fn text_lines(cs: Seq<Seq<char>>) -> Seq<char>
    decreases cs.len(),
{
    if cs.len() == 0 {
        seq![]
    } else {
        text_lines(cs.drop_last()) + cs.last() + seq!['\n']
    }
}

/// The header line `x = W, y = H, rule = R`.
pub open spec fn header_text(w: usize, h: usize, birth: Seq<bool>, survival: Seq<bool>) -> Seq<char> {
    seq!['x', ' ', '=', ' '] + nat_decimal(w as nat) + seq![',', ' ', 'y', ' ', '=', ' ']
        + nat_decimal(h as nat) + seq![',', ' ', 'r', 'u', 'l', 'e', ' ', '=', ' '] + rule_notation(
        birth,
        survival,
    ) + seq!['\n']
}

/// The text of a pattern in the RLE format: the comment lines, the header line, then
/// the runs closed by `'!'`, in lines of at most 70 characters.
pub open spec fn rle_text(
    comments: Seq<Seq<char>>,
    w: usize,
    h: usize,
    birth: Seq<bool>,
    survival: Seq<bool>,
    ts: Seq<RleRunsTriple>,
) -> Seq<char> {
    let (out, buf) = wrap_tokens(content_tokens(ts).push(seq!['!']));
    text_lines(comments) + header_text(w, h, birth, survival) + out + buf + seq!['\n']
}

/// A pattern in the RLE format.
#[derive(Debug)]
pub struct Rle {
    header: RleHeader,
    comments: Vec<String>,
    contents: Vec<RleRunsTriple>,
}

/// The decimal digits of `n`.
fn usize_decimal(n: usize) -> (r: Vec<char>)
    ensures
        r@ == nat_decimal(n as nat),
{
    u128_decimal(n as u128)
}

/// Adds one piece of text to the lines being laid out.
fn wrap_push(out: &mut Vec<char>, buf: &mut Vec<char>, s: &Vec<char>)
    ensures
        (final(out)@, final(buf)@) == ({
            if old(buf)@.len() + s@.len() > max_line_width() {
                (old(out)@ + old(buf)@ + seq!['\n'], s@)
            } else {
                (old(out)@, old(buf)@ + s@)
            }
        }),
{
    if buf.len() > 70 || s.len() > 70 - buf.len() {
        out.append(buf);
        out.push('\n');
        let mut t = s.clone();
        assert(t@ == s@);
        buf.append(&mut t);
    } else {
        let mut t = s.clone();
        assert(t@ == s@);
        buf.append(&mut t);
    }
}

impl Rle {
    /// The width written in the header.
    pub closed spec fn spec_width(self) -> usize {
        self.header.width
    }

    /// The height written in the header.
    pub closed spec fn spec_height(self) -> usize {
        self.header.height
    }

    /// The rule of the pattern.
    pub closed spec fn spec_rule(self) -> Rule {
        self.header.rule
    }

    /// The comment lines of the pattern.
    pub closed spec fn spec_comments(self) -> Seq<Seq<char>> {
        strings_view(self.comments@)
    }

    /// The runs of cells of the pattern.
    pub closed spec fn spec_contents(self) -> Seq<RleRunsTriple> {
        self.contents@
    }

    /// The pattern holds what was read.
    pub open spec fn matches_parsed(self, p: RleParsed) -> bool {
        &&& self.spec_width() == p.header.width
        &&& self.spec_height() == p.header.height
        &&& self.spec_rule().birth_table() == p.header.birth
        &&& self.spec_rule().survival_table() == p.header.survival
        &&& self.spec_comments() == p.comments
        &&& self.spec_contents() == p.contents
    }

    /// A pattern made of a header, comment lines and runs of cells.
    pub(crate) fn from_parts(header: RleHeader, comments: Vec<String>, contents: Vec<RleRunsTriple>) -> (r: Rle)
        ensures
            r.spec_width() == header.width,
            r.spec_height() == header.height,
            r.spec_rule() == header.rule,
            r.spec_comments() == strings_view(comments@),
            r.spec_contents() == contents@,
    {
        Rle { header, comments, contents }
    }

    /// Parses the text of a pattern in the RLE format, given as characters.
    fn parse_chars(v: &Vec<char>) -> (res: Result<Rle, FormatError>)
        ensures
            match rle_parse(lines(v@)) {
                Ok(p) => res matches Ok(r) && r.matches_parsed(p),
                Err(e) => res == Err::<Rle, FormatError>(e),
            },
            res matches Ok(r) ==> triples_live(r.spec_contents()),
            res matches Ok(r) ==> (empty_line_ends_at_left(rle_read(lines(v@))->Ok_0)
                ==> cells_fit(r.spec_contents()) && cells_within(
                rle_cells(r.spec_contents()),
                r.spec_width(),
                r.spec_height(),
            )),
    {
        let ls = split_lines(v);
        let mut parser = RleParser::new();
        for i in 0..ls.len()
            invariant
                views(ls@) == lines(v@),
                rle_read(views(ls@).take(i as int)) == Ok::<RleModel, FormatError>(parser.model()),
                rle_model_wf(parser.model()),
        {
            proof {
                lemma_step_wf(parser.model(), ls@[i as int]@);
            }
            assert(views(ls@).take(i + 1).drop_last() == views(ls@).take(i as int));
            assert(views(ls@).take(i + 1).last() == ls@[i as int]@);
            let r = parser.push(&ls[i]);
            match r {
                Err(e) => {
                    proof {
                        lemma_rle_error_stays(views(ls@), i + 1);
                    }
                    return Err(e);
                },
                Ok(()) => {},
            }
        }
        assert(views(ls@).take(ls.len() as int) == views(ls@));
        let res = Self::finish(parser);
        proof {
            if empty_line_ends_at_left(rle_read(lines(v@))->Ok_0) {
                crate::format::rle_bounds::lemma_read_cells_within(lines(v@));
            }
        }
        res
    }

    /// The pattern a parser has read: refused when `'!'` was not reached.
    fn finish(parser: RleParser) -> (res: Result<Rle, FormatError>)
        requires
            rle_model_wf(parser.model()),
        ensures
            ({
                let st = parser.model();
                if st.finished && st.header is Some {
                    res matches Ok(r) && r.matches_parsed(
                        RleParsed {
                            header: st.header->Some_0,
                            comments: st.comments,
                            contents: runs_to_triples(st.runs),
                        },
                    )
                } else {
                    res == Err::<Rle, FormatError>(FormatError::TerminatorNotFound)
                }
            }),
            res matches Ok(r) ==> triples_live(r.spec_contents()),
    {
        proof {
            lemma_runs_to_triples_live(parser.model().runs);
        }
        if !parser.finished {
            return Err(FormatError::TerminatorNotFound);
        }
        match parser.header {
            None => Err(FormatError::TerminatorNotFound),
            Some(header) => {
                let contents = convert_runs_to_triples(&parser.runs, header.width, header.height);
                Ok(Rle { header, comments: parser.comments, contents })
            },
        }
    }

    /// Reads a pattern in the RLE format from its bytes, line by line; each line must
    /// be UTF-8 text. A count or position beyond `usize` is refused with
    /// `FormatError::RunCountOverflow`.
    pub fn new(read: &[u8]) -> (res: Result<Rle, FormatError>)
        ensures
            match rle_parse_bytes(byte_lines(read@)) {
                Ok(p) => res matches Ok(r) && r.matches_parsed(p),
                Err(e) => res == Err::<Rle, FormatError>(e),
            },
            res matches Ok(r) ==> triples_live(r.spec_contents()),
            res matches Ok(r) ==> (empty_line_ends_at_left(rle_read_bytes(byte_lines(read@))->Ok_0)
                ==> cells_fit(r.spec_contents()) && cells_within(
                rle_cells(r.spec_contents()),
                r.spec_width(),
                r.spec_height(),
            )),
    {
        let bls = split_byte_lines(read);
        let mut parser = RleParser::new();
        for i in 0..bls.len()
            invariant
                byte_views(bls@) == byte_lines(read@),
                rle_read_bytes(byte_views(bls@).take(i as int)) == Ok::<RleModel, FormatError>(
                    parser.model(),
                ),
                rle_model_wf(parser.model()),
        {
            assert(byte_views(bls@).take(i + 1).drop_last() == byte_views(bls@).take(i as int));
            assert(byte_views(bls@).take(i + 1).last() == bls@[i as int]@);
            match decode_utf8(bls[i].as_slice()) {
                None => {
                    proof {
                        lemma_rle_bytes_error_stays(byte_views(bls@), i + 1);
                    }
                    return Err(FormatError::InvalidUtf8);
                },
                Some(text) => {
                    let line = chars_of(text);
                    proof {
                        lemma_step_wf(parser.model(), line@);
                    }
                    let r = parser.push(&line);
                    match r {
                        Err(e) => {
                            proof {
                                lemma_rle_bytes_error_stays(byte_views(bls@), i + 1);
                            }
                            return Err(e);
                        },
                        Ok(()) => {},
                    }
                },
            }
        }
        assert(byte_views(bls@).take(bls.len() as int) == byte_views(bls@));
        let res = Self::finish(parser);
        proof {
            if empty_line_ends_at_left(rle_read_bytes(byte_lines(read@))->Ok_0) {
                crate::format::rle_bounds::lemma_read_bytes_cells_within(byte_lines(read@));
            }
        }
        res
    }

    /// Returns the width written in the pattern.
    pub fn width(&self) -> (r: usize)
        ensures
            r == self.spec_width(),
    {
        self.header.width
    }

    /// Returns the height written in the pattern.
    pub fn height(&self) -> (r: usize)
        ensures
            r == self.spec_height(),
    {
        self.header.height
    }

    /// Returns the rule.
    pub fn rule(&self) -> (r: &Rule)
        ensures
            *r == self.spec_rule(),
    {
        &self.header.rule
    }

    /// Returns the comment lines of the pattern.
    pub fn comments(&self) -> (r: &Vec<String>)
        ensures
            strings_view(r@) == self.spec_comments(),
    {
        &self.comments
    }

    /// Returns the runs of cells of the pattern.
    pub fn contents(&self) -> (r: &Vec<RleRunsTriple>)
        ensures
            r@ == self.spec_contents(),
    {
        &self.contents
    }

    /// Returns the positions of the live cells, in ascending order. The positions fit
    /// in `usize` for every pattern that `RleBuilder::build` gives, and for every
    /// pattern read whose runs of line ends that count zero come at column 0.
    pub fn live_cells(&self) -> (res: Vec<Position<usize>>)
        requires
            cells_fit(self.spec_contents()),
        ensures
            res@ == rle_cells(self.spec_contents()),
            crate::format::cells::cells_sorted(res@),
    {
        proof {
            lemma_rle_cells_sorted(self.spec_contents());
        }
        let ghost ts = self.contents@;
        let mut res: Vec<Position<usize>> = Vec::new();
        let mut x: usize = 0;
        let mut y: usize = 0;
        assert(ts.take(0) =~= Seq::<RleRunsTriple>::empty());
        for i in 0..self.contents.len()
            invariant
                ts == self.contents@,
                cells_fit(ts),
                (x as int, y as int) == walk(ts.take(i as int)),
                res@ == rle_cells(ts.take(i as int)),
        {
            let t = self.contents[i];
            assert(ts.take(i + 1).drop_last() == ts.take(i as int));
            assert(ts.take(i + 1).last() == t);
            assert(walk(ts.take(i + 1)).0 <= usize::MAX);
            assert(walk(ts.take(i + 1)).1 <= usize::MAX);
            if t.pad_lines > 0 {
                x = 0;
            }
            y = y + t.pad_lines;
            x = x + t.pad_dead_cells;
            let ghost before = res@;
            let x0 = x;
            for k in 0..t.live_cells
                invariant
                    x0 + t.live_cells <= usize::MAX,
                    res@ == before + Seq::new(k as nat, |j: int| Position((x0 + j) as usize, y)),
            {
                res.push(Position(x0 + k, y));
                assert(res@ =~= before + Seq::new((k + 1) as nat, |j: int| Position((x0 + j) as usize, y)));
            }
            x = x + t.live_cells;
        }
        assert(ts.take(self.contents.len() as int) == ts);
        res
    }

    /// The text of the pattern: its comment lines, the header line
    /// `x = W, y = H, rule = R`, then the runs closed by `'!'`, in lines of at most 70
    /// characters.
    pub fn to_string(&self) -> (res: String)
        ensures
            res@ == rle_text(
                self.spec_comments(),
                self.spec_width(),
                self.spec_height(),
                self.spec_rule().birth_table(),
                self.spec_rule().survival_table(),
                self.spec_contents(),
            ),
    {
        let mut text: Vec<char> = Vec::new();
        for i in 0..self.comments.len()
            invariant
                text@ == text_lines(strings_view(self.comments@).take(i as int)),
        {
            assert(strings_view(self.comments@).take(i + 1).drop_last() == strings_view(
                self.comments@,
            ).take(i as int));
            assert(strings_view(self.comments@).take(i + 1).last() == self.comments@[i as int]@);
            push_chars(&mut text, &self.comments[i]);
            text.push('\n');
        }
        assert(strings_view(self.comments@).take(self.comments.len() as int) == strings_view(
            self.comments@,
        ));
        let ghost head = text@;
        let x_part: [char; 4] = ['x', ' ', '=', ' '];
        let y_part: [char; 6] = [',', ' ', 'y', ' ', '=', ' '];
        let rule_part: [char; 9] = [',', ' ', 'r', 'u', 'l', 'e', ' ', '=', ' '];
        push_slice(&mut text, x_part.as_slice());
        let mut digits = usize_decimal(self.header.width);
        text.append(&mut digits);
        push_slice(&mut text, y_part.as_slice());
        let mut digits = usize_decimal(self.header.height);
        text.append(&mut digits);
        push_slice(&mut text, rule_part.as_slice());
        let rule_text = self.header.rule.to_string();
        push_chars(&mut text, &rule_text);
        text.push('\n');
        assert(x_part@ =~= seq!['x', ' ', '=', ' ']);
        assert(y_part@ =~= seq![',', ' ', 'y', ' ', '=', ' ']);
        assert(rule_part@ =~= seq![',', ' ', 'r', 'u', 'l', 'e', ' ', '=', ' ']);
        assert(text@ =~= head + header_text(
            self.header.width,
            self.header.height,
            self.header.rule.birth_table(),
            self.header.rule.survival_table(),
        ));
        let ghost ts = self.contents@;
        let mut out: Vec<char> = Vec::new();
        let mut buf: Vec<char> = Vec::new();
        assert(ts.take(0) =~= Seq::<RleRunsTriple>::empty());
        for i in 0..self.contents.len()
            invariant
                ts == self.contents@,
                (out@, buf@) == wrap_tokens(content_tokens(ts.take(i as int))),
        {
            let t = self.contents[i];
            assert(ts.take(i + 1).drop_last() == ts.take(i as int));
            assert(ts.take(i + 1).last() == t);
            proof {
                lemma_wrap_concat(
                    (seq![], seq![]),
                    content_tokens(ts.take(i as int)),
                    triple_tokens(t),
                );
            }
            wrap_triple(&mut out, &mut buf, t);
        }
        assert(ts.take(self.contents.len() as int) == ts);
        let bang: Vec<char> = vec!['!'];
        let ghost all = content_tokens(ts);
        wrap_push(&mut out, &mut buf, &bang);
        assert(all.push(seq!['!']).drop_last() == all);
        assert(bang@ =~= seq!['!']);
        assert((out@, buf@) == wrap_tokens(all.push(seq!['!'])));
        text.append(&mut out);
        text.append(&mut buf);
        text.push('\n');
        string_of(&text)
    }
}

/// Lays out the runs of one triple.
fn wrap_triple(out: &mut Vec<char>, buf: &mut Vec<char>, t: RleRunsTriple)
    ensures
        (final(out)@, final(buf)@) == wrap_from((old(out)@, old(buf)@), triple_tokens(t)),
{
    let ghost st = (out@, buf@);
    let ghost mut toks: Seq<Seq<char>> = seq![];
    if t.pad_lines > 0 {
        let s = run_text(t.pad_lines, '$');
        wrap_push(out, buf, &s);
        proof {
            toks = toks.push(run_token(t.pad_lines, '$'));
            assert(toks.drop_last() =~= Seq::<Seq<char>>::empty());
            assert(wrap_from(st, toks.drop_last()) == st);
        }
    }
    assert((out@, buf@) == wrap_from(st, toks));
    let ghost mid1 = toks;
    if t.pad_dead_cells > 0 {
        let s = run_text(t.pad_dead_cells, 'b');
        wrap_push(out, buf, &s);
        proof {
            toks = toks.push(run_token(t.pad_dead_cells, 'b'));
            assert(toks.drop_last() == mid1);
        }
    }
    assert((out@, buf@) == wrap_from(st, toks));
    let ghost mid2 = toks;
    if t.live_cells > 0 {
        let s = run_text(t.live_cells, 'o');
        wrap_push(out, buf, &s);
        proof {
            toks = toks.push(run_token(t.live_cells, 'o'));
            assert(toks.drop_last() == mid2);
        }
    }
    assert((out@, buf@) == wrap_from(st, toks));
    assert(toks =~= triple_tokens(t));
}

/// The text of a run.
fn run_text(count: usize, tag: char) -> (r: Vec<char>)
    ensures
        r@ == run_token(count, tag),
{
    if count > 1 {
        let mut v = usize_decimal(count);
        v.push(tag);
        v
    } else {
        let v: Vec<char> = vec![tag];
        assert(v@ =~= seq![tag]);
        v
    }
}

/// Appends the characters of `s`.
fn push_slice(buf: &mut Vec<char>, s: &[char])
    ensures
        final(buf)@ == old(buf)@ + s@,
{
    for i in 0..s.len()
        invariant
            buf@ == old(buf)@ + s@.take(i as int),
    {
        assert(s@.take(i + 1) == s@.take(i as int).push(s@[i as int]));
        buf.push(s[i]);
    }
    assert(s@.take(s.len() as int) == s@);
}

impl Clone for Rle {
    /// A pattern with the same header, comment lines and runs.
    fn clone(&self) -> (r: Self)
        ensures
            r.spec_width() == self.spec_width(),
            r.spec_height() == self.spec_height(),
            r.spec_rule() == self.spec_rule(),
            r.spec_comments() == self.spec_comments(),
            r.spec_contents() == self.spec_contents(),
    {
        let mut contents: Vec<RleRunsTriple> = Vec::new();
        for i in 0..self.contents.len()
            invariant
                contents@ == self.contents@.take(i as int),
        {
            assert(self.contents@.take(i + 1) == self.contents@.take(i as int).push(
                self.contents@[i as int],
            ));
            contents.push(self.contents[i]);
        }
        assert(self.contents@.take(self.contents.len() as int) == self.contents@);
        Rle {
            header: RleHeader {
                width: self.header.width,
                height: self.header.height,
                rule: self.header.rule,
            },
            comments: copy_strings(&self.comments),
            contents,
        }
    }
}

impl std::str::FromStr for Rle {
    type Err = FormatError;

    /// Parses a pattern in the RLE format; a count or position beyond `usize` is
    /// refused with `FormatError::RunCountOverflow`.
    fn from_str(s: &str) -> (res: Result<Self, Self::Err>)
        ensures
            match rle_parse(lines(s@)) {
                Ok(p) => res matches Ok(r) && r.matches_parsed(p),
                Err(e) => res == Err::<Rle, FormatError>(e),
            },
            res matches Ok(r) ==> triples_live(r.spec_contents()),
            res matches Ok(r) ==> (empty_line_ends_at_left(rle_read(lines(s@))->Ok_0)
                ==> cells_fit(r.spec_contents()) && cells_within(
                rle_cells(r.spec_contents()),
                r.spec_width(),
                r.spec_height(),
            )),
    {
        let v = chars_of(s);
        Self::parse_chars(&v)
    }
}

impl Format for Rle {
    open spec fn spec_rule_tables(&self) -> (Seq<bool>, Seq<bool>) {
        (self.spec_rule().birth_table(), self.spec_rule().survival_table())
    }

    open spec fn spec_live_cells(&self) -> Seq<Position<usize>> {
        rle_cells(self.spec_contents())
    }

    open spec fn live_cells_fit(&self) -> bool {
        cells_fit(self.spec_contents())
    }

    fn rule(&self) -> Rule {
        self.header.rule
    }

    fn live_cells(&self) -> Vec<Position<usize>> {
        Rle::live_cells(self)
    }
}

} // verus!
