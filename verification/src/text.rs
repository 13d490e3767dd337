//! Texts as sequences of characters: lines, suffixes, decimal numerals.

use vstd::prelude::*;

verus! {

/// `String::push` appends one character to the end of the string.
pub assume_specification[ String::push ](s: &mut String, c: char)
    ensures
        final(s)@ == old(s)@.push(c),
;

/// The characters of `s`, in order.
pub fn chars_of(s: &str) -> (v: Vec<char>)
    ensures
        v@ == s@,
{
    broadcast use vstd::string::group_string_axioms;

    let mut v: Vec<char> = Vec::new();
    let chars = s.chars();
    for c in it: chars
        invariant
            it.seq() == s@,
            v@ == it.seq().take(it.index()),
    {
        v.push(c);
    }
    v
}

/// A line segment without the carriage return that stood before its line feed.
pub open spec fn strip_cr(segment: Seq<char>) -> Seq<char> {
    if segment.len() > 0 && segment.last() == '\r' {
        segment.drop_last()
    } else {
        segment
    }
}

/// What follows the last line feed of `text`: the line that no line feed has closed yet.
pub open spec fn open_line(text: Seq<char>) -> Seq<char>
    decreases text.len(),
{
    if text.len() == 0 || text.last() == '\n' {
        Seq::empty()
    } else {
        open_line(text.drop_last()).push(text.last())
    }
}

/// The lines of `text` that a line feed has closed, each without its terminator
/// (a line feed, or a carriage return and a line feed).
pub open spec fn closed_lines(text: Seq<char>) -> Seq<Seq<char>>
    decreases text.len(),
{
    if text.len() == 0 {
        Seq::empty()
    } else if text.last() == '\n' {
        closed_lines(text.drop_last()).push(strip_cr(open_line(text.drop_last())))
    } else {
        closed_lines(text.drop_last())
    }
}

/// The lines of `text`. A line ends at a line feed or at a carriage return followed by a
/// line feed; the terminator is not part of the line. The last line needs no terminator,
/// and a text that ends with a terminator has no empty line after it.
pub open spec fn split_lines(text: Seq<char>) -> Seq<Seq<char>> {
    if open_line(text).len() == 0 {
        closed_lines(text)
    } else {
        closed_lines(text).push(open_line(text))
    }
}

/// Splits `text` into its lines.
pub fn lines(text: &str) -> (out: Vec<String>)
    ensures
        out.deep_view() == split_lines(text@),
{
    broadcast use vstd::string::group_string_axioms;

    let mut out: Vec<String> = Vec::new();
    let mut line = String::new();
    let mut pending_cr = false;
    let chars = text.chars();
    for c in it: chars
        invariant
            it.seq() == text@,
            out.deep_view() == closed_lines(text@.take(it.index())),
            open_line(text@.take(it.index())) == if pending_cr {
                line@.push('\r')
            } else {
                line@
            },
            !pending_cr ==> line@.len() == 0 || line@.last() != '\r',
    {
        let ghost before = text@.take(it.index());
        let ghost after = text@.take(it.index() + 1);
        assert(after.drop_last() == before);
        assert(after.last() == c);
        if c == '\n' {
            let ghost shown = out.deep_view();
            assert(strip_cr(open_line(before)) == line@) by {
                if pending_cr {
                    assert(line@.push('\r').drop_last() =~= line@);
                }
            }
            out.push(line);
            assert(out.deep_view() =~= shown.push(strip_cr(open_line(before))));
            line = String::new();
            pending_cr = false;
        } else {
            if pending_cr {
                line.push('\r');
            }
            if c == '\r' {
                pending_cr = true;
            } else {
                pending_cr = false;
                line.push(c);
            }
        }
    }
    assert(text@.take(text@.len() as int) == text@);
    if pending_cr {
        line.push('\r');
    }
    if !line.as_str().is_empty() {
        let ghost shown = out.deep_view();
        out.push(line);
        assert(out.deep_view() =~= shown.push(open_line(text@)));
    }
    out
}

/// Tells whether two texts are the same.
pub fn same_text(a: &str, b: &str) -> (same: bool)
    ensures
        same == (a@ == b@),
{
    let x = chars_of(a);
    let y = chars_of(b);
    if x.len() != y.len() {
        return false;
    }
    let mut i: usize = 0;
    while i < x.len()
        invariant
            i <= x.len(),
            x@ == a@,
            y@ == b@,
            x.len() == y.len(),
            forall|k: int| 0 <= k < i ==> x@[k] == y@[k],
        decreases x.len() - i,
    {
        if x[i] != y[i] {
            assert(a@[i as int] != b@[i as int]);
            return false;
        }
        i += 1;
    }
    assert(x@ =~= y@);
    true
}

/// Whether `text` ends with `suffix`.
pub open spec fn has_suffix(text: Seq<char>, suffix: Seq<char>) -> bool {
    text.len() >= suffix.len() && text.subrange(text.len() - suffix.len(), text.len() as int)
        == suffix
}

/// Tells whether `text` ends with `suffix`.
pub fn ends_with(text: &str, suffix: &str) -> (b: bool)
    ensures
        b == has_suffix(text@, suffix@),
{
    let t = chars_of(text);
    let s = chars_of(suffix);
    if t.len() < s.len() {
        return false;
    }
    let start: usize = t.len() - s.len();
    let mut i: usize = 0;
    while i < s.len()
        invariant
            t@ == text@,
            s@ == suffix@,
            start + s.len() == t.len(),
            i <= s.len(),
            forall|k: int| 0 <= k < i ==> t@[start + k] == s@[k],
        decreases s.len() - i,
    {
        if t[start + i] != s[i] {
            assert(text@.subrange(start as int, t.len() as int)[i as int] != suffix@[i as int]);
            return false;
        }
        i += 1;
    }
    assert(text@.subrange(start as int, t.len() as int) =~= suffix@);
    true
}

/// The character that stands for the digit `d`.
pub open spec fn digit_char(d: nat) -> char {
    if d == 0 {
        '0'
    } else if d == 1 {
        '1'
    } else if d == 2 {
        '2'
    } else if d == 3 {
        '3'
    } else if d == 4 {
        '4'
    } else if d == 5 {
        '5'
    } else if d == 6 {
        '6'
    } else if d == 7 {
        '7'
    } else if d == 8 {
        '8'
    } else {
        '9'
    }
}

/// The decimal numeral of `n`, without leading zeros.
pub open spec fn decimal(n: nat) -> Seq<char>
    decreases n,
{
    if n < 10 {
        seq![digit_char(n)]
    } else {
        decimal(n / 10).push(digit_char(n % 10))
    }
}

fn digit(d: usize) -> (c: char)
    requires
        d < 10,
    ensures
        c == digit_char(d as nat),
{
    if d == 0 {
        '0'
    } else if d == 1 {
        '1'
    } else if d == 2 {
        '2'
    } else if d == 3 {
        '3'
    } else if d == 4 {
        '4'
    } else if d == 5 {
        '5'
    } else if d == 6 {
        '6'
    } else if d == 7 {
        '7'
    } else if d == 8 {
        '8'
    } else {
        '9'
    }
}

/// Writes `n` as a decimal numeral.
pub fn decimal_string(n: usize) -> (s: String)
    ensures
        s@ == decimal(n as nat),
    decreases n,
{
    if n < 10 {
        let mut s = String::new();
        s.push(digit(n));
        s
    } else {
        let mut s = decimal_string(n / 10);
        s.push(digit(n % 10));
        s
    }
}

/// The digit that a character stands for; 0 for what is no digit.
pub open spec fn digit_value(c: char) -> nat {
    if c == '1' {
        1
    } else if c == '2' {
        2
    } else if c == '3' {
        3
    } else if c == '4' {
        4
    } else if c == '5' {
        5
    } else if c == '6' {
        6
    } else if c == '7' {
        7
    } else if c == '8' {
        8
    } else if c == '9' {
        9
    } else {
        0
    }
}

/// Whether a character is a decimal digit.
pub open spec fn is_digit(c: char) -> bool {
    c == '0' || digit_value(c) > 0
}

/// The number that a decimal numeral denotes.
pub open spec fn decimal_value(numeral: Seq<char>) -> nat
    decreases numeral.len(),
{
    if numeral.len() == 0 {
        0
    } else {
        decimal_value(numeral.drop_last()) * 10 + digit_value(numeral.last())
    }
}

/// A decimal numeral is made of digits, has at least one, and denotes its number: no
/// two numbers have the same numeral.
pub proof fn lemma_decimal(n: nat)
    ensures
        decimal(n).len() > 0,
        forall|i: int| 0 <= i < decimal(n).len() ==> is_digit(#[trigger] decimal(n)[i]),
        decimal_value(decimal(n)) == n,
    decreases n,
{
    if n < 10 {
        assert(decimal(n).drop_last() =~= Seq::<char>::empty());
        assert(decimal_value(Seq::<char>::empty()) == 0);
        assert(decimal(n).last() == digit_char(n));
    } else {
        lemma_decimal(n / 10);
        assert(decimal(n).drop_last() =~= decimal(n / 10));
        assert(decimal(n).last() == digit_char(n % 10));
    }
    assert forall|d: nat| d < 10 implies digit_value(#[trigger] digit_char(d)) == d by {}
}

} // verus!
