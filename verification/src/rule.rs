//! Rules of Life-like cellular automata in the birth/survival notation.

use vstd::prelude::*;

use crate::text::{
    chars_of, digit_char, find_from, first_in, free_of, in_class, is_ascii_digit, lemma_split_first,
    lemma_split_none, split_on, string_of, sub_chars, CharClass,
};

verus! {

/// A rule of a Life-like cellular automaton: two truth tables indexed by the
/// number of live neighbours (0 to 8), one telling whether a dead cell is born,
/// the other whether a live cell survives.
#[derive(Clone, Copy, Debug)]
pub struct Rule {
    birth: [bool; 9],
    survival: [bool; 9],
}

/// The error returned when a string is not a rule in the birth/survival or S/B notation.
#[derive(Clone, Copy, Debug, PartialEq, Eq, Structural)]
pub struct ParseRuleError;

/// The digits `'0'` to `'8'` of the entries of `t` that hold, in ascending order.
pub open spec fn table_digits(t: Seq<bool>) -> Seq<char>
    decreases t.len(),
{
    if t.len() == 0 {
        seq![]
    } else if t.last() {
        table_digits(t.drop_last()).push(digit_char(t.len() - 1))
    } else {
        table_digits(t.drop_last())
    }
}

/// The birth/survival notation of a rule with the given tables, e.g. `"B3/S23"`.
pub open spec fn rule_notation(birth: Seq<bool>, survival: Seq<bool>) -> Seq<char> {
    seq!['B'] + table_digits(birth) + seq!['/', 'S'] + table_digits(survival)
}

/// A digit of a truth table: `'0'` to `'8'`.
pub open spec fn is_table_digit(c: char) -> bool {
    '0' <= c <= '8'
}

/// The truth table that a run of table digits lists, or `None` when it holds
/// another character.
pub open spec fn table_of_digits(s: Seq<char>) -> Option<Seq<bool>> {
    if forall|i: int| 0 <= i < s.len() ==> is_table_digit(#[trigger] s[i]) {
        Some(Seq::new(9, |n: int| s.contains(digit_char(n))))
    } else {
        None
    }
}

/// The label of a field of a rule string: the part before its first ASCII digit.
pub open spec fn field_label(f: Seq<char>) -> Seq<char> {
    f.take(first_in(f, CharClass::AsciiDigit))
}

/// The numbers of a field of a rule string: the part from its first ASCII digit on.
pub open spec fn field_numbers(f: Seq<char>) -> Seq<char> {
    f.skip(first_in(f, CharClass::AsciiDigit))
}

/// `l` is the one-letter label `upper`, in either case.
pub open spec fn is_label(l: Seq<char>, upper: char, lower: char) -> bool {
    l.len() == 1 && (l[0] == upper || l[0] == lower)
}

/// The birth and survival digits of a rule string, before they are checked: two
/// fields split at `'/'`, labelled `B` and `S` (in either case) in the birth/survival
/// notation, or both unlabelled in the S/B notation (survival first).
pub open spec fn rule_digit_fields(s: Seq<char>) -> Option<(Seq<char>, Seq<char>)> {
    let fields = split_on(s, '/');
    if fields.len() != 2 {
        None
    } else {
        let f0 = fields[0];
        let f1 = fields[1];
        if is_label(field_label(f0), 'B', 'b') && is_label(field_label(f1), 'S', 's') {
            Some((field_numbers(f0), field_numbers(f1)))
        } else if field_label(f0).len() == 0 && field_label(f1).len() == 0 {
            Some((field_numbers(f1), field_numbers(f0)))
        } else {
            None
        }
    }
}

/// The birth and survival tables that a rule string denotes, or `None` when it
/// denotes no rule.
pub open spec fn parse_rule(s: Seq<char>) -> Option<(Seq<bool>, Seq<bool>)> {
    match rule_digit_fields(s) {
        Some((b, sv)) => match (table_of_digits(b), table_of_digits(sv)) {
            (Some(tb), Some(ts)) => Some((tb, ts)),
            _ => None,
        },
        None => None,
    }
}

/// The tables of Conway's Game of Life, B3/S23.
pub open spec fn conways_birth() -> Seq<bool> {
    seq![false, false, false, true, false, false, false, false, false]
}

pub open spec fn conways_survival() -> Seq<bool> {
    seq![false, false, true, true, false, false, false, false, false]
}

fn digit_char_exec(d: usize) -> (c: char)
    requires
        d < 10,
    ensures
        c == digit_char(d as int),
{
    let b: u8 = (d as u8) + 48u8;
    b as char
}

/// Appends the digits of the entries of `table` that hold.
fn push_table_digits(buf: &mut Vec<char>, table: &[bool; 9])
    ensures
        final(buf)@ == old(buf)@ + table_digits(table@),
{
    for i in 0..9
        invariant
            buf@ == old(buf)@ + table_digits(table@.take(i as int)),
    {
        assert(table@.take(i + 1).drop_last() == table@.take(i as int));
        if table[i] {
            buf.push(digit_char_exec(i));
        }
    }
    assert(table@.take(9) == table@);
}

/// The truth table listed by the digits `v[from..]`, or `None` when one of them
/// is not a table digit.
fn table_from_digits(v: &Vec<char>, from: usize) -> (res: Option<[bool; 9]>)
    requires
        from <= v.len(),
    ensures
        match (res, table_of_digits(v@.skip(from as int))) {
            (Some(t), Some(spec_t)) => t@ == spec_t,
            (None, None) => true,
            _ => false,
        },
{
    let ghost s = v@.skip(from as int);
    let mut table = [false; 9];
    let mut i = from;
    while i < v.len()
        invariant
            from <= i <= v.len(),
            s == v@.skip(from as int),
            forall|j: int| 0 <= j < i - from ==> is_table_digit(#[trigger] s[j]),
            forall|n: int|
                0 <= n < 9 ==> table@[n] == s.take(i - from).contains(digit_char(n)),
            table@.len() == 9,
        decreases v.len() - i,
    {
        let c = v[i];
        if !('0' <= c && c <= '8') {
            assert(s[i - from] == c);
            return None;
        }
        let d = (c as u32 - 48) as usize;
        let ghost before = table@;
        table[d] = true;
        proof {
            assert(s.take(i + 1 - from) == s.take(i - from).push(c));
            assert(digit_char(d as int) == c);
            assert forall|n: int| 0 <= n < 9 implies table@[n] == s.take(i + 1 - from).contains(
                digit_char(n),
            ) by {
                vstd::seq_lib::lemma_seq_contains_after_push(s.take(i - from), c, digit_char(n));
                if n != d {
                    assert(digit_char(n) != c) by {
                        assert((digit_char(n) as int) == n + 48);
                    }
                }
            }
        }
        i += 1;
    }
    proof {
        assert(s.take(i - from) == s);
        assert(table@ == Seq::new(9, |n: int| s.contains(digit_char(n))));
    }
    Some(table)
}

impl Rule {
    /// The birth table: entry `n` tells whether a dead cell with `n` live neighbours is born.
    pub closed spec fn birth_table(self) -> Seq<bool> {
        self.birth@
    }

    /// The survival table: entry `n` tells whether a live cell with `n` live neighbours survives.
    pub closed spec fn survival_table(self) -> Seq<bool> {
        self.survival@
    }

    /// Both tables have an entry for each neighbour count from 0 to 8.
    pub proof fn lemma_table_lengths(self)
        ensures
            self.birth_table().len() == 9,
            self.survival_table().len() == 9,
    {
    }

    /// Two rules with the same tables are the same rule.
    pub proof fn lemma_tables_determine_rule(a: Rule, b: Rule)
        requires
            a.birth_table() == b.birth_table(),
            a.survival_table() == b.survival_table(),
        ensures
            a == b,
    {
        assert(a.birth =~= b.birth);
        assert(a.survival =~= b.survival);
    }

    /// Whether a dead cell with `count` live neighbours is born.
    pub open spec fn spec_is_born(self, count: int) -> bool {
        self.birth_table()[count]
    }

    /// Whether a live cell with `count` live neighbours survives.
    pub open spec fn spec_is_survive(self, count: int) -> bool {
        self.survival_table()[count]
    }

    /// Creates a rule from its birth and survival tables.
    pub fn new(birth: &[bool; 9], survival: &[bool; 9]) -> (rule: Self)
        ensures
            rule.birth_table() == birth@,
            rule.survival_table() == survival@,
    {
        Rule { birth: *birth, survival: *survival }
    }

    /// Returns whether a new cell is born from `count` live neighbours.
    pub fn is_born(&self, count: usize) -> (res: bool)
        requires
            count <= 8,
        ensures
            res == self.spec_is_born(count as int),
    {
        self.birth[count]
    }

    /// Returns whether a cell with `count` live neighbours survives.
    pub fn is_survive(&self, count: usize) -> (res: bool)
        requires
            count <= 8,
        ensures
            res == self.spec_is_survive(count as int),
    {
        self.survival[count]
    }

    /// The rule of Conway's Game of Life, B3/S23.
    pub fn conways_life() -> (rule: Self)
        ensures
            rule.birth_table() == conways_birth(),
            rule.survival_table() == conways_survival(),
    {
        let r = Self::new(
            &[false, false, false, true, false, false, false, false, false],
            &[false, false, true, true, false, false, false, false, false],
        );
        assert(r.birth_table() =~= conways_birth());
        assert(r.survival_table() =~= conways_survival());
        r
    }

    /// The rule in the birth/survival notation, e.g. `"B3/S23"`.
    pub fn to_string(&self) -> (res: String)
        ensures
            res@ == rule_notation(self.birth_table(), self.survival_table()),
    {
        let mut buf: Vec<char> = Vec::new();
        buf.push('B');
        push_table_digits(&mut buf, &self.birth);
        buf.push('/');
        buf.push('S');
        push_table_digits(&mut buf, &self.survival);
        assert(buf@ =~= rule_notation(self.birth_table(), self.survival_table()));
        string_of(&buf)
    }

    /// Parses a rule in the birth/survival notation (`"B3/S23"`, labels in either
    /// case) or in the S/B notation (`"23/3"`).
    pub fn parse_str(s: &str) -> (res: Result<Rule, ParseRuleError>)
        ensures
            res is Ok <==> parse_rule(s@) is Some,
            res matches Ok(r) ==> parse_rule(s@) == Some((r.birth_table(), r.survival_table())),
    {
        let v = chars_of(s);
        let slash = find_from(&v, 0, CharClass::Exactly('/'));
        proof {
            assert(v@.skip(0) == v@);
            crate::text::lemma_first_in_bounds(v@, CharClass::Exactly('/'));
        }
        if slash == v.len() {
            assert(split_on(v@, '/') == seq![v@]);
            return Err(ParseRuleError);
        }
        let second = find_from(&v, slash + 1, CharClass::Exactly('/'));
        let ghost rest = v@.skip(slash + 1);
        proof {
            crate::text::lemma_first_in_bounds(rest, CharClass::Exactly('/'));
            lemma_split_len(rest, '/');
        }
        if second < v.len() {
            assert(split_on(v@, '/') == seq![v@.take(slash as int)] + split_on(rest, '/'));
            return Err(ParseRuleError);
        }
        let f0 = sub_chars(&v, 0, slash);
        let f1 = sub_chars(&v, slash + 1, v.len());
        proof {
            assert(split_on(rest, '/') == seq![rest]);
            assert(f0@ == v@.take(slash as int));
            assert(f1@ == rest);
            assert(split_on(v@, '/') == seq![f0@, f1@]);
        }
        let d0 = find_from(&f0, 0, CharClass::AsciiDigit);
        let d1 = find_from(&f1, 0, CharClass::AsciiDigit);
        proof {
            assert(f0@.skip(0) == f0@);
            assert(f1@.skip(0) == f1@);
        }
        let labelled = d0 == 1 && (f0[0] == 'B' || f0[0] == 'b') && d1 == 1 && (f1[0] == 'S'
            || f1[0] == 's');
        let (birth_digits, birth_from, survival_digits, survival_from) = if labelled {
            (&f0, d0, &f1, d1)
        } else if d0 == 0 && d1 == 0 {
            (&f1, d1, &f0, d0)
        } else {
            return Err(ParseRuleError);
        };
        let birth = table_from_digits(birth_digits, birth_from);
        let survival = table_from_digits(survival_digits, survival_from);
        match (birth, survival) {
            (Some(b), Some(sv)) => {
                let r = Rule { birth: b, survival: sv };
                Ok(r)
            },
            _ => Err(ParseRuleError),
        }
    }
}

/// `split_on` gives at least one field, and exactly one when `sep` does not occur.
pub proof fn lemma_split_len(s: Seq<char>, sep: char)
    ensures
        split_on(s, sep).len() >= 1,
        split_on(s, sep).len() == 1 <==> first_in(s, CharClass::Exactly(sep)) >= s.len(),
    decreases s.len(),
{
    crate::text::lemma_first_in_bounds(s, CharClass::Exactly(sep));
    let i = first_in(s, CharClass::Exactly(sep));
    if i < s.len() {
        lemma_split_len(s.skip(i + 1), sep);
    }
}

/// Every character of `table_digits(t)` is a table digit, and the digit of `n`
/// occurs in it exactly when entry `n` of `t` holds.
proof fn lemma_table_digits(t: Seq<bool>)
    requires
        t.len() <= 9,
    ensures
        forall|i: int|
            0 <= i < table_digits(t).len() ==> is_table_digit(#[trigger] table_digits(t)[i]),
        forall|n: int|
            #![trigger table_digits(t).contains(digit_char(n))]
            0 <= n < 9 ==> (table_digits(t).contains(digit_char(n)) <==> (n < t.len() && t[n])),
    decreases t.len(),
{
    if t.len() == 0 {
        assert(table_digits(t) =~= Seq::<char>::empty());
        assert forall|n: int| 0 <= n < 9 implies !table_digits(t).contains(digit_char(n)) by {
            if table_digits(t).contains(digit_char(n)) {
                let j = choose|j: int|
                    0 <= j < table_digits(t).len() && #[trigger] table_digits(t)[j] == digit_char(
                        n,
                    );
            }
        }
        assert(forall|n: int| 0 <= n < 9 ==> (table_digits(t).contains(digit_char(n)) <==> (n < t.len() && t[n])));
    } else {
        let p = t.drop_last();
        lemma_table_digits(p);
        let k = t.len() - 1;
        let dk = digit_char(k);
        assert((dk as int) == k + 48);
        assert(is_table_digit(dk));
        if t.last() {
            assert(table_digits(t) == table_digits(p).push(dk));
            assert forall|i: int| 0 <= i < table_digits(t).len() implies is_table_digit(
                #[trigger] table_digits(t)[i],
            ) by {
                if i < table_digits(p).len() {
                    assert(table_digits(t)[i] == table_digits(p)[i]);
                }
            }
        } else {
            assert(table_digits(t) == table_digits(p));
        }
        assert forall|n: int|
            #![trigger table_digits(t).contains(digit_char(n))]
            0 <= n < 9 implies (table_digits(t).contains(digit_char(n)) <==> (n < t.len() && t[n])) by {
            assert((digit_char(n) as int) == n + 48);
            assert(table_digits(p).contains(digit_char(n)) <==> (n < p.len() && p[n]));
            if n < p.len() {
                assert(p[n] == t[n]);
            }
            if n == k {
                assert(t[n] == t.last());
            }
            if t.last() {
                vstd::seq_lib::lemma_seq_contains_after_push(table_digits(p), dk, digit_char(n));
            }
        }
    }
}

/// The fields of a labelled rule field: its label is the letter, its numbers are
/// the digits after it.
proof fn lemma_labelled_field(letter: char, digits: Seq<char>)
    requires
        !is_ascii_digit(letter),
        forall|i: int| 0 <= i < digits.len() ==> is_table_digit(#[trigger] digits[i]),
    ensures
        field_label(seq![letter] + digits) == seq![letter],
        field_numbers(seq![letter] + digits) == digits,
{
    let f = seq![letter] + digits;
    if digits.len() > 0 {
        assert(f[1] == digits[0]);
    }
    crate::text::lemma_first_in(f, CharClass::AsciiDigit, 1);
    assert(f.take(1) =~= seq![letter]);
    assert(f.skip(1) =~= digits);
}

/// A sequence of table digits is read back as the table it was written from.
proof fn lemma_table_of_table_digits(t: Seq<bool>)
    requires
        t.len() == 9,
    ensures
        table_of_digits(table_digits(t)) == Some(t),
{
    lemma_table_digits(t);
    assert(Seq::new(9, |n: int| table_digits(t).contains(digit_char(n))) =~= t);
}

/// Parsing the birth/survival notation of a rule, as `Rule::to_string` writes it,
/// gives back the rule's tables.
pub proof fn lemma_rule_notation_roundtrip(r: Rule)
    ensures
        parse_rule(rule_notation(r.birth_table(), r.survival_table())) == Some(
            (r.birth_table(), r.survival_table()),
        ),
{
    let b = r.birth_table();
    let sv = r.survival_table();
    lemma_table_digits(b);
    lemma_table_digits(sv);
    let x = seq!['B'] + table_digits(b);
    let y = seq!['S'] + table_digits(sv);
    let s = rule_notation(b, sv);
    assert(s =~= x + seq!['/'] + y);
    assert forall|j: int| 0 <= j < x.len() implies !in_class_slash(#[trigger] s[j]) by {
        if j > 0 {
            assert(s[j] == table_digits(b)[j - 1]);
        }
    }
    assert(s[x.len() as int] == '/');
    crate::text::lemma_first_in(s, CharClass::Exactly('/'), x.len() as int);
    assert(s.take(x.len() as int) =~= x);
    assert(s.skip(x.len() as int + 1) =~= y);
    assert forall|j: int| 0 <= j < y.len() implies !in_class_slash(#[trigger] y[j]) by {
        if j > 0 {
            assert(y[j] == table_digits(sv)[j - 1]);
        }
    }
    crate::text::lemma_first_in(y, CharClass::Exactly('/'), y.len() as int);
    assert(split_on(y, '/') == seq![y]);
    assert(split_on(s, '/') =~= seq![x, y]);
    lemma_labelled_field('B', table_digits(b));
    lemma_labelled_field('S', table_digits(sv));
    lemma_table_of_table_digits(b);
    lemma_table_of_table_digits(sv);
}

spec fn in_class_slash(c: char) -> bool {
    c == '/'
}

impl PartialEq for Rule {
    fn eq(&self, other: &Self) -> (res: bool) {
        let mut i: usize = 0;
        while i < 9
            invariant
                0 <= i <= 9,
                forall|j: int|
                    0 <= j < i ==> self.birth@[j] == other.birth@[j] && self.survival@[j]
                        == other.survival@[j],
            decreases 9 - i,
        {
            if self.birth[i] != other.birth[i] || self.survival[i] != other.survival[i] {
                return false;
            }
            i += 1;
        }
        assert(self.birth@ =~= other.birth@);
        assert(self.survival@ =~= other.survival@);
        true
    }
}

impl vstd::std_specs::cmp::PartialEqSpecImpl for Rule {
    open spec fn obeys_eq_spec() -> bool {
        true
    }

    open spec fn eq_spec(&self, other: &Self) -> bool {
        self.birth_table() == other.birth_table() && self.survival_table()
            == other.survival_table()
    }
}

impl Eq for Rule {

}

impl std::str::FromStr for Rule {
    type Err = ParseRuleError;

    fn from_str(s: &str) -> (res: Result<Self, Self::Err>)
        ensures
            res is Ok <==> parse_rule(s@) is Some,
            res matches Ok(r) ==> parse_rule(s@) == Some((r.birth_table(), r.survival_table())),
            res matches Err(e) ==> e == ParseRuleError,
    {
        Rule::parse_str(s)
    }
}


/// A rule text in the birth/survival notation: the label `l0`, the birth digits, `'/'`,
/// the label `l1`, the survival digits.
pub open spec fn labelled_rule_text(l0: char, b: Seq<char>, l1: char, sv: Seq<char>) -> Seq<char> {
    seq![l0] + b + seq!['/', l1] + sv
}

/// Every character of `s` is a table digit, `'0'` to `'8'`.
pub open spec fn all_table_digits(s: Seq<char>) -> bool {
    forall|i: int| 0 <= i < s.len() ==> is_table_digit(#[trigger] s[i])
}

/// A field made of table digits alone has no label, and all of it is numbers.
proof fn lemma_unlabelled_field(f: Seq<char>)
    requires
        all_table_digits(f),
    ensures
        field_label(f).len() == 0,
        field_numbers(f) == f,
        free_of(f, '/'),
{
    if f.len() > 0 {
        assert(in_class(f[0], CharClass::AsciiDigit));
    }
    assert(f.skip(0) == f);
    assert forall|j: int| 0 <= j < f.len() implies f[j] != '/' by {
        assert(is_table_digit(f[j]));
    }
}

/// The S/B notation: for digit strings `sv` and `b`, the rule `sv/b` is born on the
/// neighbour counts whose digits occur in `b` and survives on those whose digits occur
/// in `sv`, as the birth/survival notation `Bb/Ssv` says, with its labels in either
/// case.
pub proof fn lemma_sb_notation(sv: Seq<char>, b: Seq<char>)
    requires
        all_table_digits(sv),
        all_table_digits(b),
    ensures
        parse_rule(sv + seq!['/'] + b) == Some(
            (
                Seq::new(9, |n: int| b.contains(digit_char(n))),
                Seq::new(9, |n: int| sv.contains(digit_char(n))),
            ),
        ),
        parse_rule(seq!['B'] + b + seq!['/', 'S'] + sv) == parse_rule(sv + seq!['/'] + b),
        forall|l0: char, l1: char|
            (l0 == 'B' || l0 == 'b') && (l1 == 'S' || l1 == 's') ==> parse_rule(
                #[trigger] labelled_rule_text(l0, b, l1, sv),
            ) == parse_rule(sv + seq!['/'] + b),
{
    lemma_unlabelled_field(sv);
    lemma_unlabelled_field(b);
    lemma_split_first(sv, b, '/');
    lemma_split_none(b, '/');
    assert(split_on(sv + seq!['/'] + b, '/') =~= seq![sv, b]);
    let f0 = seq!['B'] + b;
    let f1 = seq!['S'] + sv;
    lemma_labelled_field('B', b);
    lemma_labelled_field('S', sv);
    assert(free_of(f0, '/')) by {
        assert forall|j: int| 0 <= j < f0.len() implies f0[j] != '/' by {
            if j > 0 {
                assert(f0[j] == b[j - 1]);
            }
        }
    }
    assert(free_of(f1, '/')) by {
        assert forall|j: int| 0 <= j < f1.len() implies f1[j] != '/' by {
            if j > 0 {
                assert(f1[j] == sv[j - 1]);
            }
        }
    }
    assert(seq!['B'] + b + seq!['/', 'S'] + sv =~= f0 + seq!['/'] + f1);
    lemma_split_first(f0, f1, '/');
    lemma_split_none(f1, '/');
    assert(split_on(f0 + seq!['/'] + f1, '/') =~= seq![f0, f1]);
    assert forall|l0: char, l1: char|
        (l0 == 'B' || l0 == 'b') && (l1 == 'S' || l1 == 's') implies parse_rule(
            #[trigger] labelled_rule_text(l0, b, l1, sv),
        ) == parse_rule(sv + seq!['/'] + b) by {
        lemma_label_case(l0, l1, sv, b);
    }
}

/// The rule `l0 b / l1 sv`, with its labels in either case, is read as `Bb/Ssv`.
proof fn lemma_label_case(l0: char, l1: char, sv: Seq<char>, b: Seq<char>)
    requires
        all_table_digits(sv),
        all_table_digits(b),
        l0 == 'B' || l0 == 'b',
        l1 == 'S' || l1 == 's',
    ensures
        parse_rule(seq![l0] + b + seq!['/', l1] + sv) == parse_rule(
            seq!['B'] + b + seq!['/', 'S'] + sv,
        ),
{
    let g0 = seq![l0] + b;
    let g1 = seq![l1] + sv;
    let f0 = seq!['B'] + b;
    let f1 = seq!['S'] + sv;
    lemma_unlabelled_field(sv);
    lemma_unlabelled_field(b);
    lemma_labelled_field(l0, b);
    lemma_labelled_field(l1, sv);
    lemma_labelled_field('B', b);
    lemma_labelled_field('S', sv);
    assert forall|j: int| 0 <= j < g0.len() implies g0[j] != '/' && f0[j] != '/' by {
        if j > 0 {
            assert(g0[j] == b[j - 1]);
            assert(f0[j] == b[j - 1]);
        }
    }
    assert forall|j: int| 0 <= j < g1.len() implies g1[j] != '/' && f1[j] != '/' by {
        if j > 0 {
            assert(g1[j] == sv[j - 1]);
            assert(f1[j] == sv[j - 1]);
        }
    }
    assert(free_of(g0, '/') && free_of(g1, '/') && free_of(f0, '/') && free_of(f1, '/'));
    assert(seq![l0] + b + seq!['/', l1] + sv =~= g0 + seq!['/'] + g1);
    assert(seq!['B'] + b + seq!['/', 'S'] + sv =~= f0 + seq!['/'] + f1);
    lemma_split_first(g0, g1, '/');
    lemma_split_none(g1, '/');
    lemma_split_first(f0, f1, '/');
    lemma_split_none(f1, '/');
    assert(split_on(g0 + seq!['/'] + g1, '/') =~= seq![g0, g1]);
    assert(split_on(f0 + seq!['/'] + f1, '/') =~= seq![f0, f1]);
}

/// A text split into exactly two fields at `'/'` is the first field, `'/'`, the second.
proof fn lemma_two_fields(s: Seq<char>)
    requires
        split_on(s, '/').len() == 2,
    ensures
        s == split_on(s, '/')[0] + seq!['/'] + split_on(s, '/')[1],
{
    let k = CharClass::Exactly('/');
    crate::text::lemma_first_in_bounds(s, k);
    let i = first_in(s, k);
    let t = s.skip(i + 1);
    lemma_split_len(s, '/');
    assert(i < s.len());
    lemma_split_len(t, '/');
    assert(split_on(s, '/') == seq![s.take(i)] + split_on(t, '/'));
    assert(split_on(t, '/').len() == 1);
    crate::text::lemma_first_in_bounds(t, k);
    assert(split_on(t, '/') == seq![t]);
    assert(s[i] == '/');
    assert(s =~= s.take(i) + seq!['/'] + t);
}

/// A field is its label, then its numbers.
proof fn lemma_field_parts(f: Seq<char>)
    ensures
        f == field_label(f) + field_numbers(f),
{
    crate::text::lemma_first_in_bounds(f, CharClass::AsciiDigit);
    assert(f =~= field_label(f) + field_numbers(f));
}

/// Every text read as a rule is in one of the two notations: `Bb/Ssv` (labels in
/// either case) or `sv/b`, with `b` and `sv` made of table digits.
pub proof fn lemma_rule_forms(s: Seq<char>)
    requires
        parse_rule(s) is Some,
    ensures
        exists|sv: Seq<char>, b: Seq<char>, l0: char, l1: char|
            all_table_digits(sv) && all_table_digits(b) && (#[trigger] labelled_rule_text(
                l0,
                b,
                l1,
                sv,
            ) == s && (l0 == 'B' || l0 == 'b') && (l1 == 'S' || l1 == 's') || sv + seq!['/'] + b
                == s),
{
    let fields = split_on(s, '/');
    let f0 = fields[0];
    let f1 = fields[1];
    lemma_two_fields(s);
    lemma_field_parts(f0);
    lemma_field_parts(f1);
    let (b, sv) = rule_digit_fields(s)->Some_0;
    assert(all_table_digits(b) && all_table_digits(sv));
    if is_label(field_label(f0), 'B', 'b') && is_label(field_label(f1), 'S', 's') {
        let l0 = field_label(f0)[0];
        let l1 = field_label(f1)[0];
        assert(field_label(f0) =~= seq![l0]);
        assert(field_label(f1) =~= seq![l1]);
        assert(labelled_rule_text(l0, b, l1, sv) =~= f0 + seq!['/'] + f1);
    } else {
        assert(field_label(f0) =~= Seq::<char>::empty());
        assert(field_label(f1) =~= Seq::<char>::empty());
        assert(f0 == sv && f1 == b);
        assert(sv + seq!['/'] + b == s);
        assert(labelled_rule_text('B', b, 'S', sv) == seq!['B'] + b + seq!['/', 'S'] + sv);
    }
}

} // verus!
