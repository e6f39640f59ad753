//! Character-level helpers shared by the parsers and writers of the library:
//! character classes, searching, splitting into fields and lines, trimming,
//! and decimal numbers.

use vstd::prelude::*;

verus! {

/// Unicode `White_Space`, the property that std's `char::is_whitespace` tests.
pub open spec fn is_whitespace(c: char) -> bool {
    let n = c as u32;
    ||| 0x09 <= n <= 0x0d
    ||| n == 0x20
    ||| n == 0x85
    ||| n == 0xa0
    ||| n == 0x1680
    ||| 0x2000 <= n <= 0x200a
    ||| n == 0x2028
    ||| n == 0x2029
    ||| n == 0x202f
    ||| n == 0x205f
    ||| n == 0x3000
}

/// An ASCII decimal digit, `'0'` to `'9'`.
pub open spec fn is_ascii_digit(c: char) -> bool {
    '0' <= c <= '9'
}

/// The value of an ASCII decimal digit.
pub open spec fn digit_value(c: char) -> int {
    (c as int) - ('0' as int)
}

/// The ASCII decimal digit of value `d` (for `0 <= d < 10`).
pub open spec fn digit_char(d: int) -> char {
    ((d + ('0' as int)) as u32) as char
}

pub fn is_whitespace_exec(c: char) -> (r: bool)
    ensures
        r == is_whitespace(c),
{
    let n = c as u32;
    (0x09 <= n && n <= 0x0d) || n == 0x20 || n == 0x85 || n == 0xa0 || n == 0x1680 || (0x2000
        <= n && n <= 0x200a) || n == 0x2028 || n == 0x2029 || n == 0x202f || n == 0x205f || n
        == 0x3000
}

pub fn is_ascii_digit_exec(c: char) -> (r: bool)
    ensures
        r == is_ascii_digit(c),
{
    '0' <= c && c <= '9'
}

/// Classes of characters that the parsers search for.
#[derive(Clone, Copy)]
pub enum CharClass {
    Exactly(char),
    AsciiDigit,
    NotAsciiDigit,
    NotWhitespace,
}

pub open spec fn in_class(c: char, k: CharClass) -> bool {
    match k {
        CharClass::Exactly(d) => c == d,
        CharClass::AsciiDigit => is_ascii_digit(c),
        CharClass::NotAsciiDigit => !is_ascii_digit(c),
        CharClass::NotWhitespace => !is_whitespace(c),
    }
}

pub fn in_class_exec(c: char, k: CharClass) -> (r: bool)
    ensures
        r == in_class(c, k),
{
    match k {
        CharClass::Exactly(d) => c == d,
        CharClass::AsciiDigit => is_ascii_digit_exec(c),
        CharClass::NotAsciiDigit => !is_ascii_digit_exec(c),
        CharClass::NotWhitespace => !is_whitespace_exec(c),
    }
}

/// The index of the first character of `s` in class `k`, or the length of `s`
/// when there is none.
pub open spec fn first_in(s: Seq<char>, k: CharClass) -> int
    decreases s.len(),
{
    if s.len() == 0 {
        0
    } else if in_class(s[0], k) {
        0
    } else {
        1 + first_in(s.drop_first(), k)
    }
}

pub proof fn lemma_first_in(s: Seq<char>, k: CharClass, i: int)
    requires
        0 <= i <= s.len(),
        forall|j: int| 0 <= j < i ==> !in_class(#[trigger] s[j], k),
        i == s.len() || in_class(s[i], k),
    ensures
        first_in(s, k) == i,
    decreases i,
{
    if i > 0 {
        assert forall|j: int| 0 <= j < i - 1 implies !in_class(#[trigger] s.drop_first()[j], k) by {
            assert(s.drop_first()[j] == s[j + 1]);
        }
        lemma_first_in(s.drop_first(), k, i - 1);
    }
}

pub proof fn lemma_first_in_bounds(s: Seq<char>, k: CharClass)
    ensures
        0 <= first_in(s, k) <= s.len(),
        forall|j: int| 0 <= j < first_in(s, k) ==> !in_class(#[trigger] s[j], k),
        first_in(s, k) < s.len() ==> in_class(s[first_in(s, k)], k),
    decreases s.len(),
{
    if s.len() > 0 && !in_class(s[0], k) {
        lemma_first_in_bounds(s.drop_first(), k);
        assert forall|j: int| 0 <= j < first_in(s, k) implies !in_class(#[trigger] s[j], k) by {
            if j > 0 {
                assert(s[j] == s.drop_first()[j - 1]);
            }
        }
    }
}

/// Searches `v` from index `from` for a character in class `k`.
pub fn find_from(v: &Vec<char>, from: usize, k: CharClass) -> (r: usize)
    requires
        from <= v.len(),
    ensures
        from <= r <= v.len(),
        r == from + first_in(v@.skip(from as int), k),
{
    let mut i = from;
    while i < v.len() && !in_class_exec(v[i], k)
        invariant
            from <= i <= v.len(),
            forall|j: int| from <= j < i ==> !in_class(#[trigger] v@[j], k),
        decreases v.len() - i,
    {
        i += 1;
    }
    proof {
        let t = v@.skip(from as int);
        assert forall|j: int| 0 <= j < i - from implies !in_class(#[trigger] t[j], k) by {
            assert(t[j] == v@[j + from]);
        }
        if i < v.len() {
            assert(t[i - from] == v@[i as int]);
        }
        lemma_first_in(t, k, i - from);
    }
    i
}

/// The fields of `s` between the occurrences of `sep`, as std's `str::split` gives them.
pub open spec fn split_on(s: Seq<char>, sep: char) -> Seq<Seq<char>>
    decreases s.len(),
{
    let i = first_in(s, CharClass::Exactly(sep));
    if i >= s.len() || i < 0 {
        seq![s]
    } else {
        seq![s.take(i)] + split_on(s.skip(i + 1), sep)
    }
}

/// The lines of `s`, as std's `str::lines` and `BufRead::lines` give them: split at
/// `'\n'`, one `'\r'` before each `'\n'` dropped, and no empty last line.
pub open spec fn lines(s: Seq<char>) -> Seq<Seq<char>>
    decreases s.len(),
{
    if s.len() == 0 {
        seq![]
    } else {
        let i = first_in(s, CharClass::Exactly('\n'));
        if i >= s.len() || i < 0 {
            seq![s]
        } else {
            seq![strip_cr(s.take(i))] + lines(s.skip(i + 1))
        }
    }
}

/// `s` without one trailing `'\r'`.
pub open spec fn strip_cr(s: Seq<char>) -> Seq<char> {
    if s.len() > 0 && s.last() == '\r' {
        s.drop_last()
    } else {
        s
    }
}

/// The characters of `s`, in order.
pub fn chars_of(s: &str) -> (res: Vec<char>)
    ensures
        res@ == s@,
{
    let mut v: Vec<char> = Vec::new();
    for c in it: s.chars()
        invariant
            v@ == it.seq().take(it.index()),
            it.seq() == s@,
    {
        v.push(c);
    }
    v
}

/// Appends one character to a `String` (std's `String::push`).
#[verifier::external_body]
fn push_char(s: &mut String, c: char)
    ensures
        final(s)@ == old(s)@.push(c),
{
    s.push(c);
}

/// A `String` that holds the characters of `v`, in order.
pub fn string_of(v: &Vec<char>) -> (res: String)
    ensures
        res@ == v@,
{
    let mut s = String::new();
    for i in 0..v.len()
        invariant
            s@ == v@.take(i as int),
    {
        push_char(&mut s, v[i]);
        assert(v@.take(i + 1) == v@.take(i as int).push(v@[i as int]));
    }
    assert(v@.take(v.len() as int) == v@);
    s
}

/// The characters of `v` from index `from` up to, not including, index `to`.
pub fn sub_chars(v: &Vec<char>, from: usize, to: usize) -> (res: Vec<char>)
    requires
        from <= to <= v.len(),
    ensures
        res@ == v@.subrange(from as int, to as int),
{
    let mut r: Vec<char> = Vec::new();
    for i in from..to
        invariant
            to <= v.len(),
            r@ == v@.subrange(from as int, i as int),
    {
        r.push(v[i]);
        assert(v@.subrange(from as int, i + 1) == v@.subrange(from as int, i as int).push(
            v@[i as int],
        ));
    }
    r
}

} // verus!

verus! {

/// The decimal digits of a natural number, most significant first.
pub open spec fn nat_decimal(n: nat) -> Seq<char>
    decreases n,
{
    if n < 10 {
        seq![digit_char(n as int)]
    } else {
        nat_decimal(n / 10).push(digit_char((n % 10) as int))
    }
}

/// The decimal notation of an integer, with a leading `'-'` when it is negative.
pub open spec fn int_decimal(n: int) -> Seq<char> {
    if n < 0 {
        seq!['-'] + nat_decimal((-n) as nat)
    } else {
        nat_decimal(n as nat)
    }
}

fn digit_of(d: u128) -> (c: char)
    requires
        d < 10,
    ensures
        c == digit_char(d as int),
{
    let b: u8 = (d as u8) + 48u8;
    b as char
}

/// The decimal digits of `n`.
pub fn u128_decimal(n: u128) -> (r: Vec<char>)
    ensures
        r@ == nat_decimal(n as nat),
{
    let mut suffix: Vec<char> = Vec::new();
    let mut m = n;
    while m >= 10
        invariant
            nat_decimal(n as nat) == nat_decimal(m as nat) + suffix@,
        decreases m,
    {
        let ghost old_suffix = suffix@;
        suffix.insert(0, digit_of(m % 10));
        assert(suffix@ == seq![digit_char((m % 10) as int)] + old_suffix);
        assert(nat_decimal(m as nat) == nat_decimal((m / 10) as nat).push(
            digit_char((m % 10) as int),
        ));
        assert(nat_decimal(m as nat) + old_suffix =~= nat_decimal((m / 10) as nat) + suffix@);
        m = m / 10;
    }
    suffix.insert(0, digit_of(m));
    assert(nat_decimal(m as nat) == seq![digit_char(m as int)]);
    suffix
}

/// The decimal notation of `n`.
pub fn i128_decimal(n: i128) -> (r: Vec<char>)
    ensures
        r@ == int_decimal(n as int),
{
    if n < 0 {
        let magnitude: u128 = if n == i128::MIN {
            (i128::MAX as u128) + 1
        } else {
            (-n) as u128
        };
        let digits = u128_decimal(magnitude);
        let mut r: Vec<char> = Vec::new();
        r.push('-');
        let mut i: usize = 0;
        while i < digits.len()
            invariant
                0 <= i <= digits.len(),
                r@ == seq!['-'] + digits@.take(i as int),
            decreases digits.len() - i,
        {
            r.push(digits[i]);
            assert(digits@.take(i + 1) == digits@.take(i as int).push(digits@[i as int]));
            i += 1;
        }
        assert(digits@.take(digits.len() as int) == digits@);
        r
    } else {
        u128_decimal(n as u128)
    }
}

/// The value of a run of ASCII decimal digits.
pub open spec fn decimal_value(s: Seq<char>) -> int
    decreases s.len(),
{
    if s.len() == 0 {
        0
    } else {
        decimal_value(s.drop_last()) * 10 + digit_value(s.last())
    }
}

/// All characters of `s` are ASCII decimal digits.
pub open spec fn all_ascii_digits(s: Seq<char>) -> bool {
    forall|i: int| 0 <= i < s.len() ==> is_ascii_digit(#[trigger] s[i])
}

/// What std's `usize::from_str` gives for `s`: an optional `'+'` and at least one
/// ASCII digit, with a value that fits in `usize`.
pub open spec fn parse_usize(s: Seq<char>) -> Option<usize> {
    let d = if s.len() > 0 && s[0] == '+' {
        s.drop_first()
    } else {
        s
    };
    if d.len() > 0 && all_ascii_digits(d) && decimal_value(d) <= usize::MAX {
        Some(decimal_value(d) as usize)
    } else {
        None
    }
}

proof fn lemma_decimal_value_nonneg(s: Seq<char>)
    requires
        all_ascii_digits(s),
    ensures
        decimal_value(s) >= 0,
    decreases s.len(),
{
    if s.len() > 0 {
        assert(all_ascii_digits(s.drop_last())) by {
            assert forall|i: int| 0 <= i < s.drop_last().len() implies is_ascii_digit(
                #[trigger] s.drop_last()[i],
            ) by {
                assert(s.drop_last()[i] == s[i]);
            }
        }
        lemma_decimal_value_nonneg(s.drop_last());
        assert(is_ascii_digit(s[s.len() - 1]));
    }
}

/// The value of the digits `v[from..to]`, or `None` when it does not fit in `usize`.
pub fn digits_value(v: &Vec<char>, from: usize, to: usize) -> (r: Option<usize>)
    requires
        from <= to <= v.len(),
        all_ascii_digits(v@.subrange(from as int, to as int)),
    ensures
        match r {
            Some(n) => n == decimal_value(v@.subrange(from as int, to as int)),
            None => decimal_value(v@.subrange(from as int, to as int)) > usize::MAX,
        },
{
    let ghost s = v@.subrange(from as int, to as int);
    let mut value: usize = 0;
    let mut i = from;
    while i < to
        invariant
            from <= i <= to <= v.len(),
            s == v@.subrange(from as int, to as int),
            all_ascii_digits(s),
            value == decimal_value(s.take(i - from)),
        decreases to - i,
    {
        let c = v[i];
        assert(s[i - from] == c);
        assert(is_ascii_digit(c));
        let d = (c as u32 - 48) as usize;
        assert(s.take(i + 1 - from).drop_last() == s.take(i - from));
        if value > (usize::MAX - d) / 10 {
            proof {
                lemma_decimal_value_grows(s, i + 1 - from);
            }
            return None;
        }
        value = value * 10 + d;
        i += 1;
    }
    assert(s.take(to - from) == s);
    Some(value)
}

/// Extending a run of digits never lowers its value.
proof fn lemma_decimal_value_grows(s: Seq<char>, k: int)
    requires
        all_ascii_digits(s),
        0 <= k <= s.len(),
    ensures
        decimal_value(s.take(k)) <= decimal_value(s),
    decreases s.len() - k,
{
    if k < s.len() {
        lemma_decimal_value_grows(s, k + 1);
        assert(s.take(k + 1).drop_last() == s.take(k));
        assert(all_ascii_digits(s.take(k))) by {
            assert forall|i: int| 0 <= i < s.take(k).len() implies is_ascii_digit(
                #[trigger] s.take(k)[i],
            ) by {
                assert(s.take(k)[i] == s[i]);
            }
        }
        lemma_decimal_value_nonneg(s.take(k));
        assert(is_ascii_digit(s[k]));
        assert(s.take(k + 1).last() == s[k]);
    } else {
        assert(s.take(k) == s);
    }
}

/// Parses `v[from..to]` as std's `usize::from_str` does.
pub fn parse_usize_at(v: &Vec<char>, from: usize, to: usize) -> (r: Option<usize>)
    requires
        from <= to <= v.len(),
    ensures
        r == parse_usize(v@.subrange(from as int, to as int)),
{
    let ghost s = v@.subrange(from as int, to as int);
    let start = if from < to && v[from] == '+' {
        from + 1
    } else {
        from
    };
    let ghost d = v@.subrange(start as int, to as int);
    assert(d == (if s.len() > 0 && s[0] == '+' {
        s.drop_first()
    } else {
        s
    }));
    if start == to {
        return None;
    }
    let first_non_digit = find_from(v, start, CharClass::NotAsciiDigit);
    proof {
        lemma_first_in_bounds(v@.skip(start as int), CharClass::NotAsciiDigit);
    }
    if first_non_digit < to {
        assert(v@.skip(start as int)[first_non_digit - start] == d[first_non_digit - start]);
        return None;
    }
    assert(all_ascii_digits(d)) by {
        assert forall|i: int| 0 <= i < d.len() implies is_ascii_digit(#[trigger] d[i]) by {
            assert(d[i] == v@.skip(start as int)[i]);
        }
    }
    digits_value(v, start, to)
}

} // verus!

verus! {

/// There are at most as many lines as characters.
pub proof fn lemma_lines_len(s: Seq<char>)
    ensures
        lines(s).len() <= s.len(),
    decreases s.len(),
{
    if s.len() > 0 {
        let i = first_in(s, CharClass::Exactly('\n'));
        lemma_first_in_bounds(s, CharClass::Exactly('\n'));
        if i < s.len() {
            lemma_lines_len(s.skip(i + 1));
        }
    }
}

/// `s` starts with `prefix`.
pub open spec fn has_prefix(s: Seq<char>, prefix: Seq<char>) -> bool {
    s.len() >= prefix.len() && s.take(prefix.len() as int) == prefix
}

/// Whether `v` starts with the characters of `prefix`.
pub fn has_prefix_exec(v: &Vec<char>, prefix: &[char]) -> (r: bool)
    ensures
        r == has_prefix(v@, prefix@),
{
    if v.len() < prefix.len() {
        return false;
    }
    let mut i: usize = 0;
    while i < prefix.len()
        invariant
            0 <= i <= prefix.len() <= v.len(),
            forall|j: int| 0 <= j < i ==> v@[j] == prefix@[j],
        decreases prefix.len() - i,
    {
        if v[i] != prefix[i] {
            assert(v@.take(prefix@.len() as int)[i as int] != prefix@[i as int]);
            return false;
        }
        i += 1;
    }
    assert(v@.take(prefix@.len() as int) =~= prefix@);
    true
}

} // verus!

verus! {

/// `s` without its leading Unicode white space.
pub open spec fn trim_start(s: Seq<char>) -> Seq<char> {
    s.skip(first_in(s, CharClass::NotWhitespace))
}

/// `s` without its trailing Unicode white space.
pub open spec fn trim_end(s: Seq<char>) -> Seq<char>
    decreases s.len(),
{
    if s.len() > 0 && is_whitespace(s.last()) {
        trim_end(s.drop_last())
    } else {
        s
    }
}

/// `s` without leading and trailing Unicode white space, as std's `str::trim` gives it.
pub open spec fn trim(s: Seq<char>) -> Seq<char> {
    trim_end(trim_start(s))
}

/// The bounds of `v[from..to]` without its leading and trailing white space.
pub fn trim_bounds(v: &Vec<char>, from: usize, to: usize) -> (r: (usize, usize))
    requires
        from <= to <= v.len(),
    ensures
        from <= r.0 <= r.1 <= to,
        v@.subrange(r.0 as int, r.1 as int) == trim(v@.subrange(from as int, to as int)),
{
    let ghost s = v@.subrange(from as int, to as int);
    let mut a = from;
    while a < to && is_whitespace_exec(v[a])
        invariant
            from <= a <= to <= v.len(),
            forall|j: int| from <= j < a ==> is_whitespace(#[trigger] v@[j]),
        decreases to - a,
    {
        a += 1;
    }
    proof {
        assert forall|j: int| 0 <= j < a - from implies !in_class(
            #[trigger] s[j],
            CharClass::NotWhitespace,
        ) by {
            assert(s[j] == v@[from + j]);
        }
        if a < to {
            assert(s[a - from] == v@[a as int]);
        }
        lemma_first_in(s, CharClass::NotWhitespace, a - from);
        assert(trim_start(s) == v@.subrange(a as int, to as int));
    }
    let mut b = to;
    while b > a && is_whitespace_exec(v[b - 1])
        invariant
            from <= a <= b <= to <= v.len(),
            trim_end(v@.subrange(a as int, to as int)) == trim_end(v@.subrange(a as int, b as int)),
        decreases b,
    {
        assert(v@.subrange(a as int, b as int).drop_last() == v@.subrange(a as int, b - 1));
        assert(v@.subrange(a as int, b as int).last() == v@[b - 1]);
        b -= 1;
    }
    (a, b)
}

/// The first character of a class in a prefix of `s` is the first in `s`, unless
/// the prefix ends before it.
pub proof fn lemma_first_in_take(s: Seq<char>, k: CharClass, n: int)
    requires
        0 <= n <= s.len(),
    ensures
        first_in(s.take(n), k) == if first_in(s, k) < n {
            first_in(s, k)
        } else {
            n
        },
{
    lemma_first_in_bounds(s, k);
    let i = first_in(s, k);
    let t = s.take(n);
    let r = if i < n {
        i
    } else {
        n
    };
    assert forall|j: int| 0 <= j < r implies !in_class(#[trigger] t[j], k) by {
        assert(t[j] == s[j]);
    }
    if r < n {
        assert(t[r] == s[r]);
    }
    lemma_first_in(t, k, r);
}

/// The bounds of the fields of `v` between the occurrences of `sep`.
pub fn split_bounds(v: &Vec<char>, sep: char) -> (res: Vec<(usize, usize)>)
    ensures
        res@.len() == split_on(v@, sep).len(),
        forall|i: int|
            0 <= i < res@.len() ==> #[trigger] res@[i].0 <= res@[i].1 <= v@.len() && v@.subrange(
                res@[i].0 as int,
                res@[i].1 as int,
            ) == split_on(v@, sep)[i],
{
    let mut res: Vec<(usize, usize)> = Vec::new();
    let mut pos: usize = 0;
    let ghost mut done: Seq<Seq<char>> = seq![];
    assert(v@.skip(0) == v@);
    loop
        invariant
            pos <= v.len(),
            split_on(v@, sep) == done + split_on(v@.skip(pos as int), sep),
            res@.len() == done.len(),
            forall|i: int|
                0 <= i < res@.len() ==> #[trigger] res@[i].0 <= res@[i].1 <= v@.len() && v@.subrange(
                    res@[i].0 as int,
                    res@[i].1 as int,
                ) == done[i],
        decreases v.len() - pos,
    {
        let ghost rest = v@.skip(pos as int);
        let i = find_from(v, pos, CharClass::Exactly(sep));
        proof {
            lemma_first_in_bounds(rest, CharClass::Exactly(sep));
        }
        if i == v.len() {
            res.push((pos, i));
            proof {
                assert(v@.subrange(pos as int, i as int) == rest);
                assert(split_on(rest, sep) == seq![rest]);
                done = done.push(rest);
                assert(split_on(v@, sep) =~= done);
            }
            return res;
        }
        let ghost before = res@;
        res.push((pos, i));
        proof {
            assert(rest.take(i - pos) == v@.subrange(pos as int, i as int));
            assert forall|j: int| 0 <= j < before.len() implies #[trigger] res@[j] == before[j] by {}
            assert(rest.skip(i - pos + 1) == v@.skip(i + 1));
            assert(split_on(rest, sep) == seq![rest.take(i - pos)] + split_on(rest.skip(i - pos + 1), sep));
            let old_done = done;
            done = done.push(rest.take(i - pos));
            assert(split_on(v@, sep) =~= done + split_on(v@.skip(i + 1), sep));
            assert forall|j: int| 0 <= j < res@.len() implies #[trigger] res@[j].0 <= res@[j].1
                <= v@.len() && v@.subrange(res@[j].0 as int, res@[j].1 as int) == done[j] by {
                if j < before.len() {
                    assert(res@[j] == before[j]);
                    assert(done[j] == old_done[j]);
                } else {
                    assert(j == before.len());
                    assert(res@[j] == (pos, i));
                    assert(done[j] == rest.take(i - pos));
                }
            }
        }
        pos = i + 1;
    }
}

} // verus!

verus! {

/// `s` can stand as one line of a text: it holds no `'\n'` and does not end with `'\r'`.
pub open spec fn line_safe(s: Seq<char>) -> bool {
    &&& forall|j: int| 0 <= j < s.len() ==> s[j] != '\n'
    &&& !(s.len() > 0 && s.last() == '\r')
}

/// The first character of a class in `s` is the first in `s + t`, when `s` has one.
pub proof fn lemma_first_in_concat(s: Seq<char>, t: Seq<char>, k: CharClass)
    requires
        first_in(s, k) < s.len(),
    ensures
        first_in(s + t, k) == first_in(s, k),
{
    lemma_first_in_bounds(s, k);
    let i = first_in(s, k);
    assert forall|j: int| 0 <= j < i implies !in_class(#[trigger] (s + t)[j], k) by {
        assert((s + t)[j] == s[j]);
    }
    assert((s + t)[i] == s[i]);
    lemma_first_in(s + t, k, i);
}

/// The lines of a text that ends a line, followed by more text, are its lines and
/// then those of the rest.
pub proof fn lemma_lines_concat(s: Seq<char>, t: Seq<char>)
    requires
        s.len() == 0 || s.last() == '\n',
    ensures
        lines(s + t) == lines(s) + lines(t),
    decreases s.len(),
{
    if s.len() == 0 {
        assert(s + t == t);
        assert(lines(s) == Seq::<Seq<char>>::empty());
        assert(lines(s) + lines(t) == lines(t));
    } else {
        let k = CharClass::Exactly('\n');
        lemma_first_in_bounds(s, k);
        if first_in(s, k) >= s.len() {
            assert(in_class(s[s.len() - 1], k));
            assert(false);
        }
        let i = first_in(s, k);
        lemma_first_in_concat(s, t, k);
        assert((s + t).take(i) == s.take(i));
        assert((s + t).skip(i + 1) == s.skip(i + 1) + t);
        let rest = s.skip(i + 1);
        assert(rest.len() == 0 || rest.last() == '\n') by {
            if rest.len() > 0 {
                assert(rest.last() == s.last());
            }
        }
        lemma_lines_concat(rest, t);
        assert(lines(s + t) == seq![strip_cr(s.take(i))] + lines(rest + t));
        assert(lines(s) == seq![strip_cr(s.take(i))] + lines(rest));
        assert(lines(s + t) =~= lines(s) + lines(t));
    }
}

/// A line followed by `'\n'` is one line of text.
pub proof fn lemma_lines_line(x: Seq<char>)
    requires
        line_safe(x),
    ensures
        lines(x.push('\n')) == seq![x],
{
    let s = x.push('\n');
    let k = CharClass::Exactly('\n');
    assert forall|j: int| 0 <= j < x.len() implies !in_class(#[trigger] s[j], k) by {
        assert(s[j] == x[j]);
    }
    lemma_first_in(s, k, x.len() as int);
    assert(s.take(x.len() as int) == x);
    assert(s.skip(x.len() + 1int) =~= Seq::<char>::empty());
    assert(lines(Seq::<char>::empty()) == Seq::<Seq<char>>::empty());
    assert(strip_cr(x) == x);
    assert(lines(s) =~= seq![x]);
}

/// `s` holds no character `c`.
pub open spec fn free_of(s: Seq<char>, c: char) -> bool {
    forall|j: int| 0 <= j < s.len() ==> s[j] != c
}

/// Splitting at `sep` a text whose first field has no `sep`.
pub proof fn lemma_split_first(a: Seq<char>, b: Seq<char>, sep: char)
    requires
        free_of(a, sep),
    ensures
        split_on(a + seq![sep] + b, sep) == seq![a] + split_on(b, sep),
{
    let s = a + seq![sep] + b;
    let k = CharClass::Exactly(sep);
    assert forall|j: int| 0 <= j < a.len() implies !in_class(#[trigger] s[j], k) by {
        assert(s[j] == a[j]);
    }
    assert(s[a.len() as int] == sep);
    lemma_first_in(s, k, a.len() as int);
    assert(s.take(a.len() as int) == a);
    assert(s.skip(a.len() + 1int) == b);
}

/// A text without `sep` is a single field.
pub proof fn lemma_split_none(a: Seq<char>, sep: char)
    requires
        free_of(a, sep),
    ensures
        split_on(a, sep) == seq![a],
{
    let k = CharClass::Exactly(sep);
    assert forall|j: int| 0 <= j < a.len() implies !in_class(#[trigger] a[j], k) by {}
    lemma_first_in(a, k, a.len() as int);
}

} // verus!
