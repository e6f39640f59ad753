//! What reading gives back of the RLE text of a pattern.

use vstd::prelude::*;

use crate::format::rle::{
    content_runs, content_tokens, max_line_width, walk, prepend_runs, run_token, runs_to_triples,
    text_lines, triple_tokens, triple_zero, triples_fold, wrap_tokens, RleRunsTriple, RleTag,
};
use crate::format::rle::{
    advance_runs, header_field, header_fields, rle_step, RleModel, is_comment_line, lemma_advance_concat, rle_advance,
    rle_header, rle_lines_unreadable, rle_parse, rle_read, rle_text, rule_name, Rle,
};
use crate::format::rle::{cells_fit, rle_cells, triples_live};
use crate::position::Position;
use crate::format::FormatError;
use crate::rule::{lemma_rule_notation_roundtrip, parse_rule, rule_notation, table_digits, Rule};
use crate::text::{
    all_ascii_digits, decimal_value, digit_char, first_in, in_class, is_ascii_digit,
    is_whitespace, lemma_first_in, lemma_lines_concat, lemma_lines_line, line_safe, lines,
    nat_decimal, parse_usize, split_on, trim, trim_start, CharClass, free_of, lemma_split_first,
    lemma_split_none,
};

verus! {

/// The decimal digits of a number are ASCII digits, at least one, of its value.
pub proof fn lemma_nat_decimal(n: nat)
    ensures
        nat_decimal(n).len() > 0,
        all_ascii_digits(nat_decimal(n)),
        decimal_value(nat_decimal(n)) == n,
    decreases n,
{
    if n < 10 {
        let d = digit_char(n as int);
        assert((d as int) == n + 48);
        assert(nat_decimal(n) == seq![d]);
        assert(seq![d].drop_last() =~= Seq::<char>::empty());
        assert(decimal_value(seq![d]) == decimal_value(Seq::<char>::empty()) * 10 + (d as int) - 48);
    } else {
        lemma_nat_decimal(n / 10);
        let p = nat_decimal(n / 10);
        let d = digit_char((n % 10) as int);
        assert((d as int) == n % 10 + 48);
        let s = nat_decimal(n);
        assert(s == p.push(d));
        assert(s.drop_last() == p);
        assert forall|i: int| 0 <= i < s.len() implies is_ascii_digit(#[trigger] s[i]) by {
            if i < p.len() {
                assert(s[i] == p[i]);
            }
        }
        assert(decimal_value(s) == decimal_value(p) * 10 + (d as int) - 48);
    }
}

/// The tag of a run, as it is written.
pub open spec fn tag_char(tag: RleTag) -> char {
    match tag {
        RleTag::EndOfLine => '$',
        RleTag::DeadCell => 'b',
        RleTag::AliveCell => 'o',
    }
}

/// The text of a run.
pub open spec fn run_text_of(r: (usize, RleTag)) -> Seq<char> {
    run_token(r.0, tag_char(r.1))
}

/// The texts of runs, one after another.
pub open spec fn runs_text(rs: Seq<(usize, RleTag)>) -> Seq<char>
    decreases rs.len(),
{
    if rs.len() == 0 {
        seq![]
    } else {
        run_text_of(rs[0]) + runs_text(rs.drop_first())
    }
}

/// Each run counts at least one cell or line.
pub open spec fn runs_positive(rs: Seq<(usize, RleTag)>) -> bool {
    forall|i: int| 0 <= i < rs.len() ==> (#[trigger] rs[i]).0 >= 1
}

/// The text of a run reads back as the run, before whatever follows it.
proof fn lemma_run_text(r: (usize, RleTag), rest: Seq<char>)
    requires
        r.0 >= 1,
    ensures
        content_runs(run_text_of(r) + rest) == prepend_runs(seq![r], content_runs(rest)),
{
    let tag = tag_char(r.1);
    let t = run_text_of(r);
    let s = t + rest;
    let dec = nat_decimal(r.0 as nat);
    lemma_nat_decimal(r.0 as nat);
    assert(!is_whitespace(s[0])) by {
        if r.0 > 1 {
            assert(s[0] == dec[0]);
            assert(is_ascii_digit(dec[0]));
        } else {
            assert(s[0] == tag);
        }
    }
    lemma_first_in(s, CharClass::NotWhitespace, 0);
    assert(s.skip(0) == s);
    let d: int = if r.0 > 1 {
        dec.len() as int
    } else {
        0
    };
    assert forall|j: int| 0 <= j < d implies !in_class(#[trigger] s[j], CharClass::NotAsciiDigit) by {
        assert(s[j] == dec[j]);
        assert(is_ascii_digit(dec[j]));
    }
    assert(s[d] == tag);
    lemma_first_in(s, CharClass::NotAsciiDigit, d);
    let digits = s.take(d);
    let after = s.skip(d);
    if r.0 > 1 {
        assert(digits == dec);
    } else {
        assert(digits =~= Seq::<char>::empty());
    }
    assert(after == seq![tag] + rest);
    assert(after.drop_first() == rest);
    assert(after[0] == tag);
}

/// The texts of runs, one after another, read back as the runs.
pub proof fn lemma_runs_text(rs: Seq<(usize, RleTag)>, rest: Seq<char>)
    requires
        runs_positive(rs),
    ensures
        content_runs(runs_text(rs) + rest) == prepend_runs(rs, content_runs(rest)),
    decreases rs.len(),
{
    if rs.len() == 0 {
        assert(runs_text(rs) + rest == rest);
        match content_runs(rest) {
            Ok((x, t)) => {
                assert(rs + x == x);
            },
            Err(_) => {},
        }
    } else {
        let tail = rs.drop_first();
        assert(runs_positive(tail)) by {
            assert forall|i: int| 0 <= i < tail.len() implies (#[trigger] tail[i]).0 >= 1 by {
                assert(tail[i] == rs[i + 1]);
            }
        }
        assert(rs[0].0 >= 1);
        lemma_runs_text(tail, rest);
        assert(runs_text(rs) + rest == run_text_of(rs[0]) + (runs_text(tail) + rest));
        lemma_run_text(rs[0], runs_text(tail) + rest);
        match content_runs(rest) {
            Ok((x, t)) => {
                assert(seq![rs[0]] + (tail + x) == rs + x);
            },
            Err(_) => {},
        }
    }
}

/// A `'!'` ends the pattern, whatever follows it on its line.
pub proof fn lemma_bang_text(rest: Seq<char>)
    ensures
        content_runs(seq!['!'] + rest) == Ok::<(Seq<(usize, RleTag)>, bool), FormatError>(
            (seq![], true),
        ),
{
    let s = seq!['!'] + rest;
    lemma_first_in(s, CharClass::NotWhitespace, 0);
    lemma_first_in(s, CharClass::NotAsciiDigit, 0);
    assert(s.skip(0) == s);
    assert(s.take(0) =~= Seq::<char>::empty());
}

/// The runs of a triple: its line ends, dead cells and live cells, each when not zero.
pub open spec fn triple_runs(t: RleRunsTriple) -> Seq<(usize, RleTag)> {
    (if t.pad_lines > 0 {
        seq![(t.pad_lines, RleTag::EndOfLine)]
    } else {
        seq![]
    }) + (if t.pad_dead_cells > 0 {
        seq![(t.pad_dead_cells, RleTag::DeadCell)]
    } else {
        seq![]
    }) + (if t.live_cells > 0 {
        seq![(t.live_cells, RleTag::AliveCell)]
    } else {
        seq![]
    })
}

/// The runs of the triples, in order.
pub open spec fn triples_runs(ts: Seq<RleRunsTriple>) -> Seq<(usize, RleTag)>
    decreases ts.len(),
{
    if ts.len() == 0 {
        seq![]
    } else {
        triples_runs(ts.drop_last()) + triple_runs(ts.last())
    }
}

/// Triples as a parse leaves them: each with live cells, and each but the first
/// padded by line ends or dead cells (else it would have joined the one before).
pub open spec fn triples_canonical(ts: Seq<RleRunsTriple>) -> bool {
    &&& forall|i: int| 0 <= i < ts.len() ==> (#[trigger] ts[i]).live_cells > 0
    &&& forall|i: int| 0 < i < ts.len() ==> (#[trigger] ts[i]).pad_lines > 0 || ts[i].pad_dead_cells > 0
}

/// Folding runs on from a state of the fold.
pub open spec fn triples_fold_from(
    st: (Seq<RleRunsTriple>, RleRunsTriple),
    runs: Seq<(usize, RleTag)>,
) -> (Seq<RleRunsTriple>, RleRunsTriple)
    decreases runs.len(),
{
    if runs.len() == 0 {
        st
    } else {
        let (buf, cur) = triples_fold_from(st, runs.drop_last());
        let n = runs.last().0;
        let tag = runs.last().1;
        let (buf2, next) = if cur.live_cells > 0 && tag != RleTag::AliveCell {
            (buf.push(cur), triple_zero())
        } else {
            (buf, cur)
        };
        (
            buf2,
            match tag {
                RleTag::AliveCell => RleRunsTriple {
                    pad_lines: next.pad_lines,
                    pad_dead_cells: next.pad_dead_cells,
                    live_cells: (next.live_cells + n) as usize,
                },
                RleTag::DeadCell => RleRunsTriple {
                    pad_lines: next.pad_lines,
                    pad_dead_cells: (next.pad_dead_cells + n) as usize,
                    live_cells: next.live_cells,
                },
                RleTag::EndOfLine => RleRunsTriple {
                    pad_lines: (next.pad_lines + n) as usize,
                    pad_dead_cells: 0,
                    live_cells: next.live_cells,
                },
            },
        )
    }
}

proof fn lemma_fold_from_start(runs: Seq<(usize, RleTag)>)
    ensures
        triples_fold(runs) == triples_fold_from((seq![], triple_zero()), runs),
    decreases runs.len(),
{
    if runs.len() > 0 {
        lemma_fold_from_start(runs.drop_last());
    }
}

proof fn lemma_fold_concat(
    st: (Seq<RleRunsTriple>, RleRunsTriple),
    a: Seq<(usize, RleTag)>,
    b: Seq<(usize, RleTag)>,
)
    ensures
        triples_fold_from(st, a + b) == triples_fold_from(triples_fold_from(st, a), b),
    decreases b.len(),
{
    if b.len() == 0 {
        assert(a + b == a);
    } else {
        assert((a + b).drop_last() == a + b.drop_last());
        assert((a + b).last() == b.last());
        lemma_fold_concat(st, a, b.drop_last());
    }
}

/// Folding the runs of a triple, from a state whose triple in progress either is
/// empty or has live cells and is closed by the triple's first run.
proof fn lemma_fold_triple(buf: Seq<RleRunsTriple>, cur: RleRunsTriple, t: RleRunsTriple)
    requires
        t.live_cells > 0,
        cur == triple_zero() || (cur.live_cells > 0 && (t.pad_lines > 0 || t.pad_dead_cells > 0)),
    ensures
        triples_fold_from((buf, cur), triple_runs(t)) == (if cur == triple_zero() {
            (buf, t)
        } else {
            (buf.push(cur), t)
        }),
{
    let rs = triple_runs(t);
    let st = (buf, cur);
    let b0: Seq<(usize, RleTag)> = if t.pad_lines > 0 {
        seq![(t.pad_lines, RleTag::EndOfLine)]
    } else {
        seq![]
    };
    let b1: Seq<(usize, RleTag)> = if t.pad_dead_cells > 0 {
        seq![(t.pad_dead_cells, RleTag::DeadCell)]
    } else {
        seq![]
    };
    let b2: Seq<(usize, RleTag)> = seq![(t.live_cells, RleTag::AliveCell)];
    assert(rs == b0 + b1 + b2);
    lemma_fold_concat(st, b0 + b1, b2);
    lemma_fold_concat(st, b0, b1);
    let s0 = triples_fold_from(st, b0);
    if t.pad_lines > 0 {
        assert(b0.drop_last() =~= Seq::<(usize, RleTag)>::empty());
        assert(triples_fold_from(st, b0.drop_last()) == st);
    } else {
        assert(b0 =~= Seq::<(usize, RleTag)>::empty());
    }
    let s1 = triples_fold_from(s0, b1);
    if t.pad_dead_cells > 0 {
        assert(b1.drop_last() =~= Seq::<(usize, RleTag)>::empty());
        assert(triples_fold_from(s0, b1.drop_last()) == s0);
    } else {
        assert(b1 =~= Seq::<(usize, RleTag)>::empty());
    }
    assert(b2.drop_last() =~= Seq::<(usize, RleTag)>::empty());
    assert(triples_fold_from(s1, b2.drop_last()) == s1);
}

/// The triples that a parse leaves fold back from their runs.
pub proof fn lemma_triples_runs(ts: Seq<RleRunsTriple>)
    requires
        triples_canonical(ts),
    ensures
        runs_to_triples(triples_runs(ts)) == ts,
        ts.len() > 0 ==> triples_fold(triples_runs(ts)) == (ts.drop_last(), ts.last()),
        ts.len() == 0 ==> triples_fold(triples_runs(ts)) == (Seq::<RleRunsTriple>::empty(), triple_zero()),
    decreases ts.len(),
{
    lemma_fold_from_start(triples_runs(ts));
    if ts.len() > 0 {
        let init = ts.drop_last();
        assert(triples_canonical(init)) by {
            assert forall|i: int| 0 <= i < init.len() implies (#[trigger] init[i]).live_cells > 0 by {
                assert(init[i] == ts[i]);
            }
            assert forall|i: int| 0 < i < init.len() implies (#[trigger] init[i]).pad_lines > 0
                || init[i].pad_dead_cells > 0 by {
                assert(init[i] == ts[i]);
            }
        }
        lemma_triples_runs(init);
        lemma_fold_from_start(triples_runs(init));
        let t = ts.last();
        assert(t == ts[ts.len() - 1]);
        assert(t.live_cells > 0);
        lemma_fold_concat((seq![], triple_zero()), triples_runs(init), triple_runs(t));
        if init.len() > 0 {
            assert(init.last() == ts[ts.len() - 2]);
            assert(ts[ts.len() - 2].live_cells > 0);
            assert(t.pad_lines > 0 || t.pad_dead_cells > 0);
            lemma_fold_triple(init.drop_last(), init.last(), t);
            assert(init.drop_last().push(init.last()) == init);
        } else {
            lemma_fold_triple(seq![], triple_zero(), t);
            assert(init =~= Seq::<RleRunsTriple>::empty());
        }
        assert(ts.drop_last().push(ts.last()) == ts);
    } else {
        assert(triples_runs(ts) == Seq::<(usize, RleTag)>::empty());
    }
}

/// The texts of the runs of the triples are the pieces of the RLE content text.
proof fn lemma_content_tokens(ts: Seq<RleRunsTriple>)
    ensures
        content_tokens(ts) == triples_runs(ts).map_values(|r: (usize, RleTag)| run_text_of(r)),
    decreases ts.len(),
{
    if ts.len() > 0 {
        lemma_content_tokens(ts.drop_last());
        let t = ts.last();
        assert(triple_tokens(t) =~= triple_runs(t).map_values(|r: (usize, RleTag)| run_text_of(r)));
        assert(triples_runs(ts).map_values(|r: (usize, RleTag)| run_text_of(r)) =~= triples_runs(
            ts.drop_last(),
        ).map_values(|r: (usize, RleTag)| run_text_of(r)) + triple_runs(t).map_values(
            |r: (usize, RleTag)| run_text_of(r),
        ));
    } else {
        assert(triples_runs(ts).map_values(|r: (usize, RleTag)| run_text_of(r)) =~= Seq::<
            Seq<char>,
        >::empty());
    }
}

/// The runs of triples with live cells count at least one each.
proof fn lemma_triples_runs_positive(ts: Seq<RleRunsTriple>)
    ensures
        runs_positive(triples_runs(ts)),
    decreases ts.len(),
{
    if ts.len() > 0 {
        lemma_triples_runs_positive(ts.drop_last());
        let a = triples_runs(ts.drop_last());
        let b = triple_runs(ts.last());
        assert forall|i: int| 0 <= i < (a + b).len() implies (#[trigger] (a + b)[i]).0 >= 1 by {
            if i < a.len() {
                assert((a + b)[i] == a[i]);
            } else {
                assert((a + b)[i] == b[i - a.len()]);
            }
        }
    }
}

/// The texts of runs written one after another.
proof fn lemma_runs_text_push(rs: Seq<(usize, RleTag)>, r: (usize, RleTag))
    ensures
        runs_text(rs.push(r)) == runs_text(rs) + run_text_of(r),
    decreases rs.len(),
{
    if rs.len() == 0 {
        assert(rs.push(r).drop_first() =~= Seq::<(usize, RleTag)>::empty());
        assert(runs_text(rs.push(r)) == run_text_of(r) + runs_text(Seq::<(usize, RleTag)>::empty()));
        assert(runs_text(rs.push(r)) =~= runs_text(rs) + run_text_of(r));
    } else {
        assert(rs.push(r).drop_first() == rs.drop_first().push(r));
        lemma_runs_text_push(rs.drop_first(), r);
        assert(runs_text(rs.push(r)) =~= runs_text(rs) + run_text_of(r));
    }
}

/// The characters of the texts of runs: ASCII digits and the tags `'$'`, `'b'`, `'o'`.
proof fn lemma_runs_text_chars(rs: Seq<(usize, RleTag)>)
    ensures
        forall|j: int|
            0 <= j < runs_text(rs).len() ==> is_ascii_digit(#[trigger] runs_text(rs)[j])
                || runs_text(rs)[j] == '$' || runs_text(rs)[j] == 'b' || runs_text(rs)[j] == 'o',
    decreases rs.len(),
{
    if rs.len() > 0 {
        lemma_runs_text_chars(rs.drop_first());
        let a = run_text_of(rs[0]);
        let b = runs_text(rs.drop_first());
        lemma_nat_decimal(rs[0].0 as nat);
        assert forall|j: int| 0 <= j < (a + b).len() implies is_ascii_digit(#[trigger] (a + b)[j])
            || (a + b)[j] == '$' || (a + b)[j] == 'b' || (a + b)[j] == 'o' by {
            if j < a.len() {
                assert((a + b)[j] == a[j]);
                if rs[0].0 > 1 {
                    let dec = nat_decimal(rs[0].0 as nat);
                    if j < dec.len() {
                        assert(a[j] == dec[j]);
                    }
                }
            } else {
                assert((a + b)[j] == b[j - a.len()]);
            }
        }
    }
}

/// The runs of the lines of the wrapped content text: the completed lines, and the
/// line being filled. A run whose text would make the line longer than 70
/// characters starts a new line.
pub open spec fn wrap_groups(rs: Seq<(usize, RleTag)>) -> (Seq<Seq<(usize, RleTag)>>, Seq<(usize, RleTag)>)
    decreases rs.len(),
{
    if rs.len() == 0 {
        (seq![], seq![])
    } else {
        let (gs, cur) = wrap_groups(rs.drop_last());
        let r = rs.last();
        if runs_text(cur).len() + run_text_of(r).len() > max_line_width() {
            (gs.push(cur), seq![r])
        } else {
            (gs, cur.push(r))
        }
    }
}

/// The runs of groups, one group after another.
pub open spec fn flat_runs(gs: Seq<Seq<(usize, RleTag)>>) -> Seq<(usize, RleTag)>
    decreases gs.len(),
{
    if gs.len() == 0 {
        seq![]
    } else {
        flat_runs(gs.drop_last()) + gs.last()
    }
}

/// Wrapping the texts of runs gives the lines of the groups of runs, which hold the
/// runs in order.
proof fn lemma_wrap_groups(rs: Seq<(usize, RleTag)>)
    ensures
        wrap_tokens(rs.map_values(|r: (usize, RleTag)| run_text_of(r))) == (
            text_lines(wrap_groups(rs).0.map_values(|g: Seq<(usize, RleTag)>| runs_text(g))),
            runs_text(wrap_groups(rs).1),
        ),
        flat_runs(wrap_groups(rs).0) + wrap_groups(rs).1 == rs,
    decreases rs.len(),
{
    let f = |r: (usize, RleTag)| run_text_of(r);
    let tf = |g: Seq<(usize, RleTag)>| runs_text(g);
    if rs.len() == 0 {
        assert(rs.map_values(f) =~= Seq::<Seq<char>>::empty());
        assert(wrap_groups(rs).0.map_values(tf) =~= Seq::<Seq<char>>::empty());
        assert(runs_text(Seq::<(usize, RleTag)>::empty()) == Seq::<char>::empty());
        assert(flat_runs(Seq::<Seq<(usize, RleTag)>>::empty()) + Seq::<(usize, RleTag)>::empty() =~= rs);
    } else {
        let init = rs.drop_last();
        lemma_wrap_groups(init);
        let (gs, cur) = wrap_groups(init);
        let r = rs.last();
        assert(rs.map_values(f).drop_last() =~= init.map_values(f));
        assert(rs.map_values(f).last() == run_text_of(r));
        lemma_runs_text_push(cur, r);
        if runs_text(cur).len() + run_text_of(r).len() > max_line_width() {
            assert(gs.push(cur).map_values(tf) =~= gs.map_values(tf).push(runs_text(cur)));
            assert(gs.push(cur).map_values(tf).drop_last() == gs.map_values(tf));
            assert(text_lines(gs.push(cur).map_values(tf)) == text_lines(gs.map_values(tf))
                + runs_text(cur) + seq!['\n']);
            assert(seq![r].drop_first() =~= Seq::<(usize, RleTag)>::empty());
            assert(seq![r][0] == r);
            assert(runs_text(Seq::<(usize, RleTag)>::empty()) == Seq::<char>::empty());
            assert(runs_text(seq![r]) =~= run_text_of(r));
            assert(gs.push(cur).drop_last() == gs);
            assert(flat_runs(gs.push(cur)) == flat_runs(gs) + cur);
            assert(rs == init.push(r));
            assert(flat_runs(gs) + cur == init);
            assert(flat_runs(gs.push(cur)) + seq![r] =~= rs);
        } else {
            assert(rs == init.push(r));
            assert(flat_runs(gs) + cur == init);
            assert(flat_runs(gs) + cur.push(r) =~= (flat_runs(gs) + cur).push(r));
        }
    }
}

/// Every run of text made of digits and tags can stand as a line.
proof fn lemma_runs_text_line_safe(rs: Seq<(usize, RleTag)>, extra: Seq<char>)
    requires
        extra == Seq::<char>::empty() || extra == seq!['!'],
    ensures
        line_safe(runs_text(rs) + extra),
{
    lemma_runs_text_chars(rs);
    let l = runs_text(rs) + extra;
    assert forall|j: int| 0 <= j < l.len() implies l[j] != '\n' by {
        if j < runs_text(rs).len() {
            assert(l[j] == runs_text(rs)[j]);
        }
    }
    if l.len() > 0 {
        if extra.len() > 0 {
            assert(l.last() == '!');
        } else {
            assert(l.last() == runs_text(rs)[runs_text(rs).len() - 1]);
        }
    }
}

/// Lines that can stand as lines, each followed by `'\n'`, read back as themselves.
pub proof fn lemma_text_lines_read(ls: Seq<Seq<char>>)
    requires
        forall|i: int| 0 <= i < ls.len() ==> line_safe(#[trigger] ls[i]),
    ensures
        lines(text_lines(ls)) == ls,
        text_lines(ls).len() == 0 || text_lines(ls).last() == '\n',
    decreases ls.len(),
{
    if ls.len() > 0 {
        let init = ls.drop_last();
        assert forall|i: int| 0 <= i < init.len() implies line_safe(#[trigger] init[i]) by {
            assert(init[i] == ls[i]);
        }
        lemma_text_lines_read(init);
        assert(line_safe(ls[ls.len() - 1]));
        lemma_lines_line(ls.last());
        assert(text_lines(ls) == text_lines(init) + ls.last().push('\n'));
        lemma_lines_concat(text_lines(init), ls.last().push('\n'));
        assert(ls =~= init.push(ls.last()));
    } else {
        assert(lines(Seq::<char>::empty()) == Seq::<Seq<char>>::empty());
    }
}

/// Trimming white space off a text whose core starts and ends with other characters.
proof fn lemma_trim(pre: Seq<char>, core: Seq<char>, post: Seq<char>)
    requires
        forall|j: int| 0 <= j < pre.len() ==> is_whitespace(#[trigger] pre[j]),
        forall|j: int| 0 <= j < post.len() ==> is_whitespace(#[trigger] post[j]),
        core.len() > 0,
        !is_whitespace(core[0]),
        !is_whitespace(core.last()),
    ensures
        trim(pre + core + post) == core,
    decreases post.len(),
{
    let s = pre + core + post;
    let k = CharClass::NotWhitespace;
    assert forall|j: int| 0 <= j < pre.len() implies !in_class(#[trigger] s[j], k) by {
        assert(s[j] == pre[j]);
    }
    assert(s[pre.len() as int] == core[0]);
    lemma_first_in(s, k, pre.len() as int);
    assert(trim_start(s) == core + post);
    if post.len() > 0 {
        let p2 = post.drop_last();
        assert forall|j: int| 0 <= j < p2.len() implies is_whitespace(#[trigger] p2[j]) by {
            assert(p2[j] == post[j]);
        }
        lemma_trim(pre, core, p2);
        assert((core + post).drop_last() == core + p2);
        assert((core + post).last() == post.last());
        assert(is_whitespace(post[post.len() - 1]));
        assert(trim_start(pre + core + p2) == core + p2) by {
            let s2 = pre + core + p2;
            assert forall|j: int| 0 <= j < pre.len() implies !in_class(#[trigger] s2[j], k) by {
                assert(s2[j] == pre[j]);
            }
            assert(s2[pre.len() as int] == core[0]);
            lemma_first_in(s2, k, pre.len() as int);
        }
    } else {
        assert(core + post == core);
    }
}

/// The decimal digits of a number that fits in `usize` parse back as the number.
proof fn lemma_parse_decimal(n: usize)
    ensures
        parse_usize(nat_decimal(n as nat)) == Some(n),
{
    lemma_nat_decimal(n as nat);
    let d = nat_decimal(n as nat);
    assert(is_ascii_digit(d[0]));
}

/// The characters of a decimal: ASCII digits, neither white space nor punctuation.
proof fn lemma_decimal_chars(n: nat)
    ensures
        nat_decimal(n).len() > 0,
        forall|j: int| 0 <= j < nat_decimal(n).len() ==> is_ascii_digit(#[trigger] nat_decimal(n)[j]),
{
    lemma_nat_decimal(n);
}

/// The digits of a truth table are ASCII digits.
proof fn lemma_table_digit_chars(t: Seq<bool>)
    requires
        t.len() <= 10,
    ensures
        forall|j: int| 0 <= j < table_digits(t).len() ==> is_ascii_digit(#[trigger] table_digits(t)[j]),
    decreases t.len(),
{
    if t.len() > 0 {
        lemma_table_digit_chars(t.drop_last());
        if t.last() {
            let d = digit_char(t.len() - 1);
            assert((d as int) == t.len() - 1 + 48);
            let prev = table_digits(t.drop_last());
            assert forall|j: int| 0 <= j < table_digits(t).len() implies is_ascii_digit(
                #[trigger] table_digits(t)[j],
            ) by {
                if j < prev.len() {
                    assert(table_digits(t)[j] == prev[j]);
                }
            }
        }
    }
}

/// The header line of the RLE text, without its `'\n'`.
pub open spec fn header_line(w: usize, h: usize, birth: Seq<bool>, survival: Seq<bool>) -> Seq<char> {
    seq!['x', ' ', '=', ' '] + nat_decimal(w as nat) + seq![',', ' ', 'y', ' ', '=', ' ']
        + nat_decimal(h as nat) + seq![',', ' ', 'r', 'u', 'l', 'e', ' ', '=', ' '] + rule_notation(
        birth,
        survival,
    )
}

/// A header field `pre + name + " = " + value`, read as its trimmed name and value.
proof fn lemma_field(pre: Seq<char>, name: Seq<char>, value: Seq<char>)
    requires
        pre == Seq::<char>::empty() || pre == seq![' '],
        name.len() > 0,
        forall|j: int| 0 <= j < name.len() ==> !is_whitespace(#[trigger] name[j]) && name[j] != '=',
        value.len() > 0,
        !is_whitespace(value[0]),
        !is_whitespace(value.last()),
    ensures
        header_field(pre + name + seq![' ', '='] + seq![' '] + value) == Some((name, value)),
{
    let f = pre + name + seq![' ', '='] + seq![' '] + value;
    let k = CharClass::Exactly('=');
    let i: int = pre.len() + name.len() + 1int;
    assert forall|j: int| 0 <= j < i implies !in_class(#[trigger] f[j], k) by {
        if j < pre.len() {
            assert(f[j] == pre[j]);
        } else if j < pre.len() + name.len() {
            assert(f[j] == name[j - pre.len()]);
        } else {
            assert(f[j] == ' ');
        }
    }
    assert(f[i] == '=');
    lemma_first_in(f, k, i);
    assert(f.take(i) == pre + name + seq![' ']);
    assert(f.skip(i + 1) == seq![' '] + value + Seq::<char>::empty());
    assert forall|j: int| 0 <= j < pre.len() implies is_whitespace(#[trigger] pre[j]) by {
        assert(pre[j] == ' ');
    }
    assert(!is_whitespace(name[0]));
    assert(!is_whitespace(name[name.len() - 1]));
    lemma_trim(pre, name, seq![' ']);
    assert(pre + name + seq![' '] == f.take(i));
    assert forall|j: int| 0 <= j < 1 implies is_whitespace(#[trigger] seq![' '][j]) by {}
    lemma_trim(seq![' '], value, Seq::<char>::empty());
}

/// The fields of the header line: `x = W`, ` y = H`, ` rule = R`.
pub open spec fn header_fields_of(w: usize, h: usize, birth: Seq<bool>, survival: Seq<bool>) -> Seq<
    Seq<char>,
> {
    seq![
        seq!['x'] + seq![' ', '='] + seq![' '] + nat_decimal(w as nat),
        seq![' '] + seq!['y'] + seq![' ', '='] + seq![' '] + nat_decimal(h as nat),
        seq![' '] + rule_name() + seq![' ', '='] + seq![' '] + rule_notation(birth, survival),
    ]
}

/// The characters of the notation of a rule: neither white space, `','` nor `'='`.
proof fn lemma_notation_chars(r: Rule)
    ensures
        ({
            let n = rule_notation(r.birth_table(), r.survival_table());
            &&& n.len() > 0 && n[0] == 'B'
            &&& forall|j: int| 0 <= j < n.len() ==> !is_whitespace(#[trigger] n[j]) && n[j] != ','
                && n[j] != '='
        }),
{
    r.lemma_table_lengths();
    let b = r.birth_table();
    let sv = r.survival_table();
    let n = rule_notation(b, sv);
    lemma_table_digit_chars(b);
    lemma_table_digit_chars(sv);
    assert forall|j: int| 0 <= j < n.len() implies !is_whitespace(#[trigger] n[j]) && n[j] != ','
        && n[j] != '=' by {
        let tb = table_digits(b);
        if j == 0 {
        } else if j < 1 + tb.len() {
            assert(n[j] == tb[j - 1]);
        } else if j < 3 + tb.len() {
        } else {
            assert(n[j] == table_digits(sv)[j - 3 - tb.len()]);
        }
    }
}

/// The header line splits at `','` into its three fields.
proof fn lemma_header_split(w: usize, h: usize, r: Rule)
    ensures
        split_on(header_line(w, h, r.birth_table(), r.survival_table()), ',') == header_fields_of(
            w,
            h,
            r.birth_table(),
            r.survival_table(),
        ),
{
    let b = r.birth_table();
    let sv = r.survival_table();
    let dw = nat_decimal(w as nat);
    let dh = nat_decimal(h as nat);
    let n = rule_notation(b, sv);
    lemma_decimal_chars(w as nat);
    lemma_decimal_chars(h as nat);
    lemma_notation_chars(r);
    let fs = header_fields_of(w, h, b, sv);
    let f0 = fs[0];
    let f1 = fs[1];
    let f2 = fs[2];
    assert(header_line(w, h, b, sv) =~= f0 + seq![','] + (f1 + seq![','] + f2));
    assert(free_of(f0, ',')) by {
        assert forall|j: int| 0 <= j < f0.len() implies f0[j] != ',' by {
            if j >= 4 {
                assert(f0[j] == dw[j - 4]);
            }
        }
    }
    assert(free_of(f1, ',')) by {
        assert forall|j: int| 0 <= j < f1.len() implies f1[j] != ',' by {
            if j >= 5 {
                assert(f1[j] == dh[j - 5]);
            }
        }
    }
    assert(free_of(f2, ',')) by {
        assert forall|j: int| 0 <= j < f2.len() implies f2[j] != ',' by {
            if j >= 8 {
                assert(f2[j] == n[j - 8]);
            }
        }
    }
    lemma_split_first(f0, f1 + seq![','] + f2, ',');
    lemma_split_first(f1, f2, ',');
    lemma_split_none(f2, ',');
    assert(split_on(header_line(w, h, b, sv), ',') =~= seq![f0, f1, f2]);
}

/// Three fields with their names and values read as those.
proof fn lemma_three_fields(
    f0: Seq<char>,
    f1: Seq<char>,
    f2: Seq<char>,
    p0: (Seq<char>, Seq<char>),
    p1: (Seq<char>, Seq<char>),
    p2: (Seq<char>, Seq<char>),
)
    requires
        header_field(f0) == Some(p0),
        header_field(f1) == Some(p1),
        header_field(f2) == Some(p2),
    ensures
        header_fields(seq![f0, f1, f2]) == Ok::<Seq<(Seq<char>, Seq<char>)>, FormatError>(
            seq![p0, p1, p2],
        ),
{
    assert(seq![f0].drop_last() =~= Seq::<Seq<char>>::empty());
    assert(header_fields(seq![f0]) == Ok::<Seq<(Seq<char>, Seq<char>)>, FormatError>(seq![p0])) by {
        assert(header_fields(Seq::<Seq<char>>::empty()) == Ok::<
            Seq<(Seq<char>, Seq<char>)>,
            FormatError,
        >(Seq::<(Seq<char>, Seq<char>)>::empty()));
        assert(seq![f0].last() == f0);
        assert(Seq::<(Seq<char>, Seq<char>)>::empty().push(p0) =~= seq![p0]);
    }
    assert(header_fields(seq![f0, f1]) == Ok::<Seq<(Seq<char>, Seq<char>)>, FormatError>(
        seq![p0, p1],
    )) by {
        assert(seq![f0, f1].drop_last() =~= seq![f0]);
        assert(seq![f0, f1].last() == f1);
        assert(seq![p0].push(p1) =~= seq![p0, p1]);
    }
    assert(seq![f0, f1, f2].drop_last() =~= seq![f0, f1]);
    assert(seq![f0, f1, f2].last() == f2);
    assert(seq![p0, p1].push(p2) =~= seq![p0, p1, p2]);
}

/// The header line of the RLE text reads back as its width, height and rule.
pub proof fn lemma_header_line(w: usize, h: usize, r: Rule)
    ensures
        rle_header(header_line(w, h, r.birth_table(), r.survival_table())) matches Ok(m) && m.width
            == w && m.height == h && m.birth == r.birth_table() && m.survival == r.survival_table(),
{
    let b = r.birth_table();
    let sv = r.survival_table();
    let dw = nat_decimal(w as nat);
    let dh = nat_decimal(h as nat);
    let n = rule_notation(b, sv);
    lemma_decimal_chars(w as nat);
    lemma_decimal_chars(h as nat);
    lemma_notation_chars(r);
    lemma_header_split(w, h, r);
    let fs = header_fields_of(w, h, b, sv);
    assert(fs[0] == Seq::<char>::empty() + seq!['x'] + seq![' ', '='] + seq![' '] + dw);
    lemma_field(Seq::<char>::empty(), seq!['x'], dw);
    lemma_field(seq![' '], seq!['y'], dh);
    lemma_field(seq![' '], rule_name(), n);
    lemma_three_fields(fs[0], fs[1], fs[2], (seq!['x'], dw), (seq!['y'], dh), (rule_name(), n));
    lemma_parse_decimal(w);
    lemma_parse_decimal(h);
    lemma_rule_notation_roundtrip(r);
}

/// Runs each counting at least one, split anywhere, count at least one on each side.
proof fn lemma_runs_positive_split(a: Seq<(usize, RleTag)>, b: Seq<(usize, RleTag)>)
    requires
        runs_positive(a + b),
    ensures
        runs_positive(a),
        runs_positive(b),
{
    assert forall|i: int| 0 <= i < a.len() implies (#[trigger] a[i]).0 >= 1 by {
        assert((a + b)[i] == a[i]);
    }
    assert forall|i: int| 0 <= i < b.len() implies (#[trigger] b[i]).0 >= 1 by {
        assert((a + b)[i + a.len()] == b[i]);
    }
}

/// The runs of the first groups, then the rest.
proof fn lemma_flat_split(gs: Seq<Seq<(usize, RleTag)>>, k: int)
    requires
        0 <= k <= gs.len(),
    ensures
        flat_runs(gs) == flat_runs(gs.take(k)) + flat_runs(gs.skip(k)),
        k < gs.len() ==> flat_runs(gs.take(k + 1)) == flat_runs(gs.take(k)) + gs[k],
    decreases gs.len(),
{
    if k < gs.len() {
        assert(gs.take(k + 1).drop_last() == gs.take(k));
        assert(gs.take(k + 1).last() == gs[k]);
    }
    if k == gs.len() {
        assert(gs.take(k) == gs);
        assert(gs.skip(k) =~= Seq::<Seq<(usize, RleTag)>>::empty());
        assert(flat_runs(gs) + Seq::<(usize, RleTag)>::empty() == flat_runs(gs));
    } else {
        lemma_flat_split(gs.drop_last(), k);
        assert(gs.drop_last().take(k) == gs.take(k));
        assert(gs.skip(k).drop_last() == gs.drop_last().skip(k));
        assert(gs.skip(k).last() == gs.last());
    }
}

/// A line of runs that stays within the pattern leaves the runs read before it.
proof fn lemma_line_advance(
    w: usize,
    h: usize,
    done: Seq<(usize, RleTag)>,
    line: Seq<(usize, RleTag)>,
    rest: Seq<(usize, RleTag)>,
)
    requires
        advance_runs(w, h, 0, 0, done + line + rest) is Ok,
        advance_runs(w, h, 0, 0, done) is Ok,
        (done + line + rest).len() > 0 ==> h > 0,
    ensures
        advance_runs(w, h, 0, 0, done + line) is Ok,
        rle_advance(
            w,
            h,
            advance_runs(w, h, 0, 0, done)->Ok_0.0,
            advance_runs(w, h, 0, 0, done)->Ok_0.1,
            line,
        ) == advance_runs(w, h, 0, 0, done + line),
{
    lemma_advance_concat(w, h, 0, 0, done + line, rest);
    lemma_advance_concat(w, h, 0, 0, done, line);
    if line.len() > 0 {
        assert((done + line + rest).len() > 0);
    }
}

/// The comment lines before the header are kept.
proof fn lemma_read_comments(cs: Seq<Seq<char>>, k: int)
    requires
        0 <= k <= cs.len(),
        forall|i: int| 0 <= i < cs.len() ==> is_comment_line(#[trigger] cs[i]),
    ensures
        rle_read(cs.take(k)) matches Ok(st) && st.comments == cs.take(k) && st.header is None
            && st.runs == Seq::<(usize, RleTag)>::empty() && st.x == 0 && st.y == 0 && !st.finished,
    decreases k,
{
    if k == 0 {
        assert(cs.take(0) =~= Seq::<Seq<char>>::empty());
    } else {
        lemma_read_comments(cs, k - 1);
        assert(cs.take(k).drop_last() == cs.take(k - 1));
        assert(cs.take(k).last() == cs[k - 1]);
        assert(is_comment_line(cs[k - 1]));
        assert(cs.take(k) == cs.take(k - 1).push(cs[k - 1]));
    }
}

/// The content lines of the RLE text: one per group of runs, then the last group
/// closed by `'!'`.
pub open spec fn content_lines(gs: Seq<Seq<(usize, RleTag)>>, last: Seq<(usize, RleTag)>) -> Seq<
    Seq<char>,
> {
    gs.map_values(|g: Seq<(usize, RleTag)>| runs_text(g)).push(runs_text(last) + seq!['!'])
}

/// Reading the content lines after the comments and the header: the runs of the
/// groups read so far, and where they lead.
#[verifier::spinoff_prover]
#[verifier::rlimit(50)]
proof fn lemma_read_contents(
    cs: Seq<Seq<char>>,
    w: usize,
    h: usize,
    r: Rule,
    gs: Seq<Seq<(usize, RleTag)>>,
    last: Seq<(usize, RleTag)>,
    i: int,
)
    requires
        forall|k: int| 0 <= k < cs.len() ==> is_comment_line(#[trigger] cs[k]),
        0 <= i <= gs.len(),
        runs_positive(flat_runs(gs) + last),
        advance_runs(w, h, 0, 0, flat_runs(gs) + last) is Ok,
        (flat_runs(gs) + last).len() > 0 ==> h > 0,
    ensures
        advance_runs(w, h, 0, 0, flat_runs(gs.take(i))) is Ok,
        rle_read(
            cs + seq![header_line(w, h, r.birth_table(), r.survival_table())] + content_lines(
                gs,
                last,
            ).take(i),
        ) matches Ok(st) && st.comments == cs && (st.header matches Some(m) && m.width == w
            && m.height == h && m.birth == r.birth_table() && m.survival == r.survival_table())
            && st.runs == flat_runs(gs.take(i)) && (st.x, st.y) == advance_runs(
            w,
            h,
            0,
            0,
            flat_runs(gs.take(i)),
        )->Ok_0 && !st.finished,
    decreases i,
{
    let hl = header_line(w, h, r.birth_table(), r.survival_table());
    let head = cs + seq![hl];
    let cl = content_lines(gs, last);
    if i == 0 {
        assert(cl.take(0) =~= Seq::<Seq<char>>::empty());
        assert(head + cl.take(0) == head);
        lemma_read_head(cs, w, h, r);
        assert(gs.take(0) =~= Seq::<Seq<(usize, RleTag)>>::empty());
        assert(flat_runs(gs.take(0)) == Seq::<(usize, RleTag)>::empty());
    } else {
        lemma_read_contents(cs, w, h, r, gs, last, i - 1);
        lemma_flat_split(gs, i - 1);
        lemma_flat_split(gs, i);
        let done = flat_runs(gs.take(i - 1));
        let line = gs[i - 1];
        let rest = flat_runs(gs.skip(i));
        assert(flat_runs(gs) + last == done + line + (rest + last));
        lemma_line_advance(w, h, done, line, rest + last);
        lemma_runs_positive_split(done + line, rest + last);
        lemma_runs_positive_split(done, line);
        let ls = head + cl.take(i);
        assert(cl.take(i) == cl.take(i - 1).push(cl[i - 1]));
        assert(ls.drop_last() == head + cl.take(i - 1));
        assert(cl[i - 1] == runs_text(line));
        assert(ls.last() == runs_text(line));
        let st = rle_read(head + cl.take(i - 1))->Ok_0;
        lemma_step_runs_line(st, line);
    }
}

/// Reading the comment lines and the header line.
proof fn lemma_read_head(cs: Seq<Seq<char>>, w: usize, h: usize, r: Rule)
    requires
        forall|k: int| 0 <= k < cs.len() ==> is_comment_line(#[trigger] cs[k]),
    ensures
        rle_read(cs + seq![header_line(w, h, r.birth_table(), r.survival_table())]) matches Ok(st)
            && st.comments == cs && (st.header matches Some(m) && m.width == w && m.height == h
            && m.birth == r.birth_table() && m.survival == r.survival_table()) && st.runs
            == Seq::<(usize, RleTag)>::empty() && st.x == 0 && st.y == 0 && !st.finished,
{
    let hl = header_line(w, h, r.birth_table(), r.survival_table());
    let head = cs + seq![hl];
    lemma_read_comments(cs, cs.len() as int);
    assert(cs.take(cs.len() as int) == cs);
    assert(head.drop_last() == cs);
    assert(head.last() == hl);
    lemma_header_line(w, h, r);
    assert(hl[0] == 'x');
}

/// After the header and before `'!'`, the text of a line of runs that stays within
/// the pattern adds its runs.
proof fn lemma_step_runs_line(st: RleModel, line: Seq<(usize, RleTag)>)
    requires
        st.header is Some,
        !st.finished,
        runs_positive(line),
    ensures
        rle_step(st, runs_text(line)) == (match rle_advance(
            st.header->Some_0.width,
            st.header->Some_0.height,
            st.x,
            st.y,
            line,
        ) {
            Err(e) => Err(e),
            Ok((x, y)) => Ok::<RleModel, FormatError>(
                RleModel {
                    comments: st.comments,
                    header: st.header,
                    runs: st.runs + line,
                    x,
                    y,
                    finished: false,
                },
            ),
        }),
{
    lemma_runs_text(line, Seq::<char>::empty());
    assert(runs_text(line) + Seq::<char>::empty() == runs_text(line));
    assert(content_runs(Seq::<char>::empty()) == Ok::<(Seq<(usize, RleTag)>, bool), FormatError>(
        (seq![], false),
    )) by {
        assert(Seq::<char>::empty().skip(0) == Seq::<char>::empty());
    }
    assert(line + Seq::<(usize, RleTag)>::empty() == line);
}

/// The content text of the RLE text is the lines of groups of the runs of the
/// triples, the last closed by `'!'`.
proof fn lemma_content_text(ts: Seq<RleRunsTriple>) -> (res: (Seq<Seq<(usize, RleTag)>>, Seq<(usize, RleTag)>))
    ensures
        ({
            let (out, buf) = wrap_tokens(content_tokens(ts).push(seq!['!']));
            out + buf + seq!['\n'] == text_lines(content_lines(res.0, res.1))
        }),
        flat_runs(res.0) + res.1 == triples_runs(ts),
{
    let rs = triples_runs(ts);
    lemma_content_tokens(ts);
    lemma_wrap_groups(rs);
    let f = |x: (usize, RleTag)| run_text_of(x);
    let tf = |g: Seq<(usize, RleTag)>| runs_text(g);
    let toks = rs.map_values(f);
    let (g0, cur) = wrap_groups(rs);
    let bang: Seq<char> = seq!['!'];
    assert(toks.push(bang).drop_last() == toks);
    assert(toks.push(bang).last() == bang);
    let out0 = text_lines(g0.map_values(tf));
    let buf0 = runs_text(cur);
    assert(wrap_tokens(toks) == (out0, buf0));
    assert(runs_text(Seq::<(usize, RleTag)>::empty()) == Seq::<char>::empty());
    if buf0.len() + bang.len() > max_line_width() {
        let gs = g0.push(cur);
        let last = Seq::<(usize, RleTag)>::empty();
        let cl = content_lines(gs, last);
        assert(gs.map_values(tf) =~= g0.map_values(tf).push(buf0));
        assert(gs.map_values(tf).drop_last() == g0.map_values(tf));
        assert(text_lines(gs.map_values(tf)) == out0 + buf0 + seq!['\n']);
        assert(cl.drop_last() == gs.map_values(tf));
        assert(cl.last() == Seq::<char>::empty() + bang);
        assert(text_lines(cl) =~= out0 + buf0 + seq!['\n'] + bang + seq!['\n']);
        assert(gs.drop_last() == g0);
        assert(flat_runs(gs) == flat_runs(g0) + cur);
        assert(flat_runs(gs) + last =~= flat_runs(g0) + cur);
        (gs, last)
    } else {
        let cl = content_lines(g0, cur);
        assert(cl.drop_last() == g0.map_values(tf));
        assert(text_lines(cl) =~= out0 + (buf0 + bang) + seq!['\n']);
        (g0, cur)
    }
}

/// The header line can stand as a line.
proof fn lemma_header_line_safe(w: usize, h: usize, r: Rule)
    ensures
        line_safe(header_line(w, h, r.birth_table(), r.survival_table())),
{
    let b = r.birth_table();
    let sv = r.survival_table();
    let hl = header_line(w, h, b, sv);
    lemma_decimal_chars(w as nat);
    lemma_decimal_chars(h as nat);
    lemma_notation_chars(r);
    let dw = nat_decimal(w as nat);
    let dh = nat_decimal(h as nat);
    let n = rule_notation(b, sv);
    assert forall|j: int| 0 <= j < hl.len() implies hl[j] != '\n' by {
        if 4 <= j < 4 + dw.len() {
            assert(hl[j] == dw[j - 4]);
        } else if 10 + dw.len() <= j < 10 + dw.len() + dh.len() {
            assert(hl[j] == dh[j - 10 - dw.len()]);
        } else if j >= 19 + dw.len() + dh.len() {
            assert(hl[j] == n[j - 19 - dw.len() - dh.len()]);
        }
    }
    assert(hl.last() == n.last());
    assert(n.last() == n[n.len() - 1]);
}

/// The lines of the RLE text: the comment lines, the header line, the content lines.
proof fn lemma_rle_text_lines(cs: Seq<Seq<char>>, w: usize, h: usize, r: Rule, ts: Seq<RleRunsTriple>) -> (res: (Seq<Seq<(usize, RleTag)>>, Seq<(usize, RleTag)>))
    requires
        forall|k: int| 0 <= k < cs.len() ==> line_safe(#[trigger] cs[k]),
    ensures
        lines(rle_text(cs, w, h, r.birth_table(), r.survival_table(), ts)) == cs + seq![
            header_line(w, h, r.birth_table(), r.survival_table()),
        ] + content_lines(res.0, res.1),
        flat_runs(res.0) + res.1 == triples_runs(ts),
{
    let b = r.birth_table();
    let sv = r.survival_table();
    let (gs, last) = lemma_content_text(ts);
    let cl = content_lines(gs, last);
    let hl = header_line(w, h, b, sv);
    let tf = |g: Seq<(usize, RleTag)>| runs_text(g);
    assert forall|k: int| 0 <= k < cl.len() implies line_safe(#[trigger] cl[k]) by {
        if k < cl.len() - 1 {
            assert(cl[k] == runs_text(gs[k]));
            lemma_runs_text_line_safe(gs[k], Seq::<char>::empty());
            assert(runs_text(gs[k]) + Seq::<char>::empty() == runs_text(gs[k]));
        } else {
            lemma_runs_text_line_safe(last, seq!['!']);
        }
    }
    lemma_header_line_safe(w, h, r);
    let all = cs + seq![hl] + cl;
    assert forall|k: int| 0 <= k < all.len() implies line_safe(#[trigger] all[k]) by {
        if k < cs.len() {
            assert(all[k] == cs[k]);
        } else if k == cs.len() {
            assert(all[k] == hl);
        } else {
            assert(all[k] == cl[k - cs.len() - 1]);
        }
    }
    lemma_text_lines_concat(cs, seq![hl] + cl);
    lemma_text_lines_concat(seq![hl], cl);
    assert(seq![hl].drop_last() =~= Seq::<Seq<char>>::empty());
    assert(text_lines(Seq::<Seq<char>>::empty()) == Seq::<char>::empty());
    assert(text_lines(seq![hl]) =~= hl + seq!['\n']);
    let (out, buf) = wrap_tokens(content_tokens(ts).push(seq!['!']));
    assert(rle_text(cs, w, h, b, sv, ts) == text_lines(cs) + (hl + seq!['\n']) + out + buf + seq!['\n']);
    assert(rle_text(cs, w, h, b, sv, ts) =~= text_lines(all)) by {
        assert(all == cs + (seq![hl] + cl));
    }
    lemma_text_lines_read(all);
    (gs, last)
}

/// Reading the RLE text of a pattern gives back its comment lines, its width, height
/// and rule, and the triples that its runs fold into, when the comment lines can stand
/// as comment lines and the runs stay within the width and height; triples as a parse
/// leaves them come back as they are.
pub proof fn lemma_rle_reread(
    cs: Seq<Seq<char>>,
    w: usize,
    h: usize,
    r: Rule,
    ts: Seq<RleRunsTriple>,
)
    requires
        forall|k: int| 0 <= k < cs.len() ==> line_safe(#[trigger] cs[k]) && is_comment_line(cs[k]),
        rle_advance(w, h, 0, 0, triples_runs(ts)) is Ok,
    ensures
        rle_parse(
            lines(rle_text(cs, w, h, r.birth_table(), r.survival_table(), ts)),
        ) matches Ok(p) && p.header.width == w && p.header.height == h && p.header.birth
            == r.birth_table() && p.header.survival == r.survival_table() && p.comments == cs
            && p.contents == runs_to_triples(triples_runs(ts)) && (triples_canonical(ts)
            ==> p.contents == ts),
{
    let b = r.birth_table();
    let sv = r.survival_table();
    let rs = triples_runs(ts);
    lemma_triples_runs_positive(ts);
    if triples_canonical(ts) {
        lemma_triples_runs(ts);
    }
    assert forall|k: int| 0 <= k < cs.len() implies line_safe(#[trigger] cs[k]) by {}
    let (gs, last) = lemma_rle_text_lines(cs, w, h, r, ts);
    let hl = header_line(w, h, b, sv);
    let cl = content_lines(gs, last);
    let all = cs + seq![hl] + cl;
    let n = gs.len() as int;
    assert forall|k: int| 0 <= k < cs.len() implies is_comment_line(#[trigger] cs[k]) by {}
    lemma_read_contents(cs, w, h, r, gs, last, n);
    assert(cl.take(n) == cl.drop_last());
    assert(all.drop_last() == cs + seq![hl] + cl.take(n));
    assert(all.last() == runs_text(last) + seq!['!']);
    assert(gs.take(n) == gs);
    let done = flat_runs(gs);
    lemma_line_advance(w, h, done, last, Seq::<(usize, RleTag)>::empty());
    assert(done + last + Seq::<(usize, RleTag)>::empty() == done + last);
    lemma_runs_positive_split(done, last);
    lemma_runs_text(last, seq!['!']);
    lemma_bang_text(Seq::<char>::empty());
    assert(seq!['!'] + Seq::<char>::empty() == seq!['!']);
    assert(last + Seq::<(usize, RleTag)>::empty() == last);
}

/// Writing the lines of two series, one after the other.
proof fn lemma_text_lines_concat(a: Seq<Seq<char>>, b: Seq<Seq<char>>)
    ensures
        text_lines(a + b) == text_lines(a) + text_lines(b),
    decreases b.len(),
{
    if b.len() == 0 {
        assert(a + b == a);
        assert(text_lines(b) == Seq::<char>::empty());
        assert(text_lines(a) + text_lines(b) == text_lines(a));
    } else {
        assert((a + b).drop_last() == a + b.drop_last());
        assert((a + b).last() == b.last());
        lemma_text_lines_concat(a, b.drop_last());
    }
}


/// The positions that triples reach are never negative.
pub proof fn lemma_walk_nonneg(ts: Seq<RleRunsTriple>)
    ensures
        walk(ts).0 >= 0 && walk(ts).1 >= 0,
    decreases ts.len(),
{
    if ts.len() > 0 {
        lemma_walk_nonneg(ts.drop_last());
    }
}

/// The cells of a triple, from where the triples before it left off.
pub proof fn lemma_rle_cells_last(ts: Seq<RleRunsTriple>)
    requires
        ts.len() > 0,
    ensures
        ({
            let (x, y) = walk(ts.drop_last());
            let t = ts.last();
            let x0 = (if t.pad_lines > 0 { 0 } else { x }) + t.pad_dead_cells;
            let y0 = y + t.pad_lines;
            &&& rle_cells(ts) == rle_cells(ts.drop_last()) + Seq::new(
                t.live_cells as nat,
                |i: int| Position((x0 + i) as usize, y0 as usize),
            )
            &&& walk(ts) == (x0 + t.live_cells, y0)
        }),
{
}

/// Folding the runs of triples that each have live cells, and whose positions fit,
/// leaves a triple in progress with live cells; with it, the folded triples have the
/// same cells and lead to the same position as the triples.
#[verifier::rlimit(60)]
#[verifier::spinoff_prover]
proof fn lemma_fold_cells(ts: Seq<RleRunsTriple>)
    requires
        triples_live(ts),
        cells_fit(ts),
    ensures
        ts.len() == 0 ==> triples_fold(triples_runs(ts)) == (Seq::<RleRunsTriple>::empty(), triple_zero()),
        ts.len() > 0 ==> ({
            let (buf, cur) = triples_fold(triples_runs(ts));
            &&& cur.live_cells > 0
            &&& rle_cells(buf.push(cur)) == rle_cells(ts)
            &&& walk(buf.push(cur)) == walk(ts)
        }),
    decreases ts.len(),
{
    if ts.len() == 0 {
        assert(triples_runs(ts) == Seq::<(usize, RleTag)>::empty());
    } else {
        let init = ts.drop_last();
        let t = ts.last();
        assert(t == ts[ts.len() - 1]);
        assert(triples_live(init)) by {
            assert forall|i: int| 0 <= i < init.len() implies (#[trigger] init[i]).live_cells > 0 by {
                assert(init[i] == ts[i]);
            }
        }
        assert(cells_fit(init)) by {
            assert forall|k: int| 0 <= k <= init.len() implies #[trigger] walk(init.take(k)).0
                <= usize::MAX && walk(init.take(k)).1 <= usize::MAX by {
                assert(init.take(k) == ts.take(k));
            }
        }
        lemma_fold_cells(init);
        lemma_fold_from_start(triples_runs(ts));
        lemma_fold_from_start(triples_runs(init));
        lemma_fold_concat((seq![], triple_zero()), triples_runs(init), triple_runs(t));
        lemma_rle_cells_last(ts);
        assert(ts.take(ts.len() as int) == ts);
        assert(walk(ts).0 <= usize::MAX);
        if init.len() == 0 {
            lemma_fold_triple(seq![], triple_zero(), t);
            assert(ts =~= seq![t]);
            assert(Seq::<RleRunsTriple>::empty().push(t) =~= seq![t]);
        } else {
            let (buf, cur) = triples_fold(triples_runs(init));
            let bc = buf.push(cur);
            assert(bc.drop_last() == buf);
            assert(bc.last() == cur);
            lemma_rle_cells_last(bc);
            lemma_walk_nonneg(buf);
            lemma_walk_nonneg(init);
            if t.pad_lines > 0 || t.pad_dead_cells > 0 {
                lemma_fold_triple(buf, cur, t);
                let b2 = bc.push(t);
                assert(b2.drop_last() == bc);
                lemma_rle_cells_last(b2);
            } else {
                let rs = triple_runs(t);
                assert(rs =~= seq![(t.live_cells, RleTag::AliveCell)]);
                assert(rs.drop_last() =~= Seq::<(usize, RleTag)>::empty());
                assert(triples_fold_from((buf, cur), rs.drop_last()) == (buf, cur));
                let cur2 = RleRunsTriple {
                    pad_lines: cur.pad_lines,
                    pad_dead_cells: cur.pad_dead_cells,
                    live_cells: (cur.live_cells + t.live_cells) as usize,
                };
                assert(triples_fold_from((buf, cur), rs) == (buf, cur2));
                let b2 = buf.push(cur2);
                assert(b2.drop_last() == buf);
                assert(b2.last() == cur2);
                lemma_rle_cells_last(b2);
                let (x, y) = walk(buf);
                let x0 = (if cur.pad_lines > 0 { 0 } else { x }) + cur.pad_dead_cells;
                let y0 = y + cur.pad_lines;
                let (xi, yi) = walk(init);
                assert(xi == x0 + cur.live_cells && yi == y0);
                let a = Seq::new(cur.live_cells as nat, |i: int| Position((x0 + i) as usize, y0 as usize));
                let b = Seq::new(t.live_cells as nat, |i: int| Position((xi + i) as usize, yi as usize));
                let ab = Seq::new(cur2.live_cells as nat, |i: int| Position((x0 + i) as usize, y0 as usize));
                assert(ab =~= a + b);
                assert(rle_cells(b2) == rle_cells(buf) + ab);
                assert(rle_cells(bc) == rle_cells(buf) + a);
                assert(rle_cells(ts) == rle_cells(init) + b);
                assert(rle_cells(b2) =~= rle_cells(ts));
            }
        }
    }
}

/// Triples that each have live cells, and whose positions fit, have the same cells as
/// the triples that their runs fold into.
pub proof fn lemma_refold_cells(ts: Seq<RleRunsTriple>)
    requires
        triples_live(ts),
        cells_fit(ts),
    ensures
        rle_cells(runs_to_triples(triples_runs(ts))) == rle_cells(ts),
{
    lemma_fold_cells(ts);
}

/// Where triples that each have live cells lead, after each of them, is one column
/// past one of their cells.
proof fn lemma_cells_reach(ts: Seq<RleRunsTriple>)
    requires
        triples_live(ts),
    ensures
        forall|k: int|
            #![trigger walk(ts.take(k))]
            1 <= k <= ts.len() ==> walk(ts.take(k)).0 >= 1 && rle_cells(ts).contains(
                Position((walk(ts.take(k)).0 - 1) as usize, walk(ts.take(k)).1 as usize),
            ),
    decreases ts.len(),
{
    if ts.len() > 0 {
        let init = ts.drop_last();
        let t = ts.last();
        assert(t == ts[ts.len() - 1]);
        assert(triples_live(init)) by {
            assert forall|i: int| 0 <= i < init.len() implies (#[trigger] init[i]).live_cells > 0 by {
                assert(init[i] == ts[i]);
            }
        }
        lemma_cells_reach(init);
        lemma_rle_cells_last(ts);
        lemma_walk_nonneg(init);
        let (x, y) = walk(init);
        let x0 = (if t.pad_lines > 0 { 0 } else { x }) + t.pad_dead_cells;
        let y0 = y + t.pad_lines;
        let a = rle_cells(init);
        let b = Seq::new(t.live_cells as nat, |i: int| Position((x0 + i) as usize, y0 as usize));
        assert(rle_cells(ts) == a + b);
        assert forall|k: int| #![trigger walk(ts.take(k))] 1 <= k <= ts.len() implies walk(ts.take(k)).0
            >= 1 && rle_cells(ts).contains(
            Position((walk(ts.take(k)).0 - 1) as usize, walk(ts.take(k)).1 as usize),
        ) by {
            let c = Position((walk(ts.take(k)).0 - 1) as usize, walk(ts.take(k)).1 as usize);
            if k < ts.len() {
                assert(init.take(k) == ts.take(k));
                assert(walk(init.take(k)).0 >= 1);
                assert(a.contains(c));
                let j = choose|j: int| 0 <= j < a.len() && a[j] == c;
                assert((a + b)[j] == c);
            } else {
                assert(ts.take(k) == ts);
                let j = a.len() + t.live_cells - 1;
                assert((a + b)[j] == b[t.live_cells - 1]);
                assert((a + b)[j] == c);
            }
        }
    }
}

/// The text of an RLE pattern reads back as the pattern: the same width, height, rule
/// and comment lines, and the same live cells, when the comment lines can stand as
/// comment lines, each triple has live cells (as those that `Rle::new` and
/// `RleBuilder::build` give do), their positions fit, and every live cell lies within
/// the width and height; triples as a parse leaves them come back as they are.
pub proof fn lemma_rle_to_string_reads_back(p: Rle)
    requires
        forall|k: int|
            0 <= k < p.spec_comments().len() ==> line_safe(#[trigger] p.spec_comments()[k])
                && is_comment_line(p.spec_comments()[k]),
        triples_live(p.spec_contents()),
        cells_fit(p.spec_contents()),
        forall|k: int|
            0 <= k < rle_cells(p.spec_contents()).len() ==> (#[trigger] rle_cells(
                p.spec_contents(),
            )[k]).0 < p.spec_width() && rle_cells(p.spec_contents())[k].1 < p.spec_height(),
    ensures
        ({
            let text = rle_text(
                p.spec_comments(),
                p.spec_width(),
                p.spec_height(),
                p.spec_rule().birth_table(),
                p.spec_rule().survival_table(),
                p.spec_contents(),
            );
            &&& !rle_lines_unreadable(lines(text))
            &&& rle_parse(lines(text)) matches Ok(q) && q.header.width == p.spec_width()
                && q.header.height == p.spec_height() && q.header.birth
                == p.spec_rule().birth_table() && q.header.survival
                == p.spec_rule().survival_table() && q.comments == p.spec_comments() && rle_cells(
                q.contents,
            ) == rle_cells(p.spec_contents()) && (triples_canonical(p.spec_contents())
                ==> p.matches_parsed(q))
        }),
{
    let ts = p.spec_contents();
    let w = p.spec_width();
    let h = p.spec_height();
    lemma_cells_reach(ts);
    assert forall|k: int| #![trigger walk(ts.take(k))] 1 <= k <= ts.len() implies walk(ts.take(k)).0
        <= w && walk(ts.take(k)).1 < h by {
        let c = Position((walk(ts.take(k)).0 - 1) as usize, walk(ts.take(k)).1 as usize);
        assert(rle_cells(ts).contains(c));
        let j = choose|j: int| 0 <= j < rle_cells(ts).len() && rle_cells(ts)[j] == c;
        assert(rle_cells(ts)[j].0 < w);
        lemma_walk_nonneg(ts.take(k));
        assert(walk(ts.take(k)).0 <= usize::MAX && walk(ts.take(k)).1 <= usize::MAX);
    }
    lemma_advance_triples(ts, w, h);
    lemma_rle_reread(p.spec_comments(), w, h, p.spec_rule(), ts);
    lemma_refold_cells(ts);
}

/// Advancing over the runs of one triple from `(x, y)`, when the position it leads
/// to stays within the width and its row above the height.
proof fn lemma_advance_triple(w: usize, h: usize, x: usize, y: usize, t: RleRunsTriple)
    requires
        (if t.pad_lines > 0 { 0 } else { x as int }) + t.pad_dead_cells + t.live_cells <= w,
        y + t.pad_lines < h,
    ensures
        advance_runs(w, h, x, y, triple_runs(t)) == Ok::<(usize, usize), FormatError>(
            (
                ((if t.pad_lines > 0 { 0 } else { x as int }) + t.pad_dead_cells + t.live_cells) as usize,
                (y + t.pad_lines) as usize,
            ),
        ),
{
    let b0: Seq<(usize, RleTag)> = if t.pad_lines > 0 {
        seq![(t.pad_lines, RleTag::EndOfLine)]
    } else {
        seq![]
    };
    let b1: Seq<(usize, RleTag)> = if t.pad_dead_cells > 0 {
        seq![(t.pad_dead_cells, RleTag::DeadCell)]
    } else {
        seq![]
    };
    let b2: Seq<(usize, RleTag)> = if t.live_cells > 0 {
        seq![(t.live_cells, RleTag::AliveCell)]
    } else {
        seq![]
    };
    assert(triple_runs(t) == b0 + b1 + b2);
    let x0: int = if t.pad_lines > 0 {
        0
    } else {
        x as int
    };
    let y0: int = y + t.pad_lines;
    let p0 = (x0 as usize, y0 as usize);
    let p1 = ((x0 + t.pad_dead_cells) as usize, y0 as usize);
    let p2 = ((x0 + t.pad_dead_cells + t.live_cells) as usize, y0 as usize);
    lemma_advance_concat(w, h, x, y, b0 + b1, b2);
    lemma_advance_concat(w, h, x, y, b0, b1);
    assert(advance_runs(w, h, x, y, b0) == Ok::<(usize, usize), FormatError>(p0)) by {
        assert(advance_runs(w, h, x, y, Seq::<(usize, RleTag)>::empty()) == Ok::<
            (usize, usize),
            FormatError,
        >((x, y)));
        if t.pad_lines > 0 {
            assert(b0.drop_last() =~= Seq::<(usize, RleTag)>::empty());
        } else {
            assert(b0 =~= Seq::<(usize, RleTag)>::empty());
        }
    }
    assert(advance_runs(w, h, p0.0, p0.1, b1) == Ok::<(usize, usize), FormatError>(p1)) by {
        assert(advance_runs(w, h, p0.0, p0.1, Seq::<(usize, RleTag)>::empty()) == Ok::<
            (usize, usize),
            FormatError,
        >(p0));
        if t.pad_dead_cells > 0 {
            assert(b1.drop_last() =~= Seq::<(usize, RleTag)>::empty());
        } else {
            assert(b1 =~= Seq::<(usize, RleTag)>::empty());
        }
    }
    assert(advance_runs(w, h, p1.0, p1.1, b2) == Ok::<(usize, usize), FormatError>(p2)) by {
        assert(advance_runs(w, h, p1.0, p1.1, Seq::<(usize, RleTag)>::empty()) == Ok::<
            (usize, usize),
            FormatError,
        >(p1));
        if t.live_cells > 0 {
            assert(b2.drop_last() =~= Seq::<(usize, RleTag)>::empty());
        } else {
            assert(b2 =~= Seq::<(usize, RleTag)>::empty());
        }
    }
}

/// Advancing over the runs of triples whose positions stay within the width, and
/// whose rows stay above the height, leads where the triples lead.
pub proof fn lemma_advance_triples(ts: Seq<RleRunsTriple>, w: usize, h: usize)
    requires
        forall|k: int|
            #![trigger walk(ts.take(k))]
            1 <= k <= ts.len() ==> walk(ts.take(k)).0 <= w && walk(ts.take(k)).1 < h,
    ensures
        advance_runs(w, h, 0, 0, triples_runs(ts)) == Ok::<(usize, usize), FormatError>(
            (walk(ts).0 as usize, walk(ts).1 as usize),
        ),
        walk(ts).0 >= 0 && walk(ts).1 >= 0,
        rle_advance(w, h, 0, 0, triples_runs(ts)) is Ok,
    decreases ts.len(),
{
    if ts.len() == 0 {
        assert(triples_runs(ts) == Seq::<(usize, RleTag)>::empty());
    } else {
        let init = ts.drop_last();
        assert forall|k: int| #![trigger walk(init.take(k))] 1 <= k <= init.len() implies walk(
            init.take(k),
        ).0 <= w && walk(init.take(k)).1 < h by {
            assert(init.take(k) == ts.take(k));
        }
        lemma_advance_triples(init, w, h);
        assert(ts.take(ts.len() as int) == ts);
        assert(walk(ts.take(ts.len() as int)).0 <= w);
        let (x, y) = walk(init);
        if init.len() > 0 {
            assert(init.take(init.len() as int) == init);
            assert(walk(init.take(init.len() as int)).0 <= w);
        }
        assert(0 <= x <= w);
        let t = ts.last();
        lemma_advance_triple(w, h, x as usize, y as usize, t);
        lemma_advance_concat(w, h, 0, 0, triples_runs(init), triple_runs(t));
    }
    if triples_runs(ts).len() > 0 {
        assert(ts.len() > 0);
        assert(walk(ts.take(1)).1 < h);
    }
}

} // verus!
