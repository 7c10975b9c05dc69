//! Text in and out: decimal numbers and joined names.

use vstd::prelude::*;

verus! {

/// The character that stands for the digit `d`.
pub open spec fn digit(d: int) -> char {
    if d == 0 {
        '0'
    } else if d == 1 {
        '1'
    } else if d == 2 {
        '2'
    } else if d == 3 {
        '3'
    } else if d == 4 {
        '4'
    } else if d == 5 {
        '5'
    } else if d == 6 {
        '6'
    } else if d == 7 {
        '7'
    } else if d == 8 {
        '8'
    } else {
        '9'
    }
}

/// The decimal digits of `n`, without leading zeros.
pub open spec fn decimal(n: nat) -> Seq<char>
    decreases n,
{
    if n < 10 {
        seq![digit(n as int)]
    } else {
        decimal(n / 10).push(digit((n % 10) as int))
    }
}

/// The pieces one after the other, with `sep` between each two of them.
pub open spec fn joined(pieces: Seq<Seq<char>>, sep: Seq<char>) -> Seq<char>
    decreases pieces.len(),
{
    if pieces.len() == 0 {
        Seq::empty()
    } else if pieces.len() == 1 {
        pieces[0]
    } else {
        joined(pieces.drop_last(), sep) + sep + pieces.last()
    }
}

/// The text of one digit.
fn digit_str(d: u8) -> (s: &'static str)
    requires
        d < 10,
    ensures
        s@ == seq![digit(d as int)],
{
    proof {
        reveal_strlit("0");
        reveal_strlit("1");
        reveal_strlit("2");
        reveal_strlit("3");
        reveal_strlit("4");
        reveal_strlit("5");
        reveal_strlit("6");
        reveal_strlit("7");
        reveal_strlit("8");
        reveal_strlit("9");
    }
    let s = if d == 0 {
        "0"
    } else if d == 1 {
        "1"
    } else if d == 2 {
        "2"
    } else if d == 3 {
        "3"
    } else if d == 4 {
        "4"
    } else if d == 5 {
        "5"
    } else if d == 6 {
        "6"
    } else if d == 7 {
        "7"
    } else if d == 8 {
        "8"
    } else {
        "9"
    };
    assert(s@ =~= seq![digit(d as int)]);
    s
}

/// Appends the decimal digits of `n` to `s`.
pub fn push_decimal(s: &mut String, n: u8)
    ensures
        final(s)@ == old(s)@ + decimal(n as nat),
{
    let ghost before = s@;
    proof {
        reveal_with_fuel(decimal, 3);
    }
    if n >= 100 {
        s.append(digit_str(n / 100));
    }
    if n >= 10 {
        s.append(digit_str((n / 10) % 10));
    }
    s.append(digit_str(n % 10));
    assert(s@ =~= before + decimal(n as nat));
}

/// The digit that the character stands for, if it stands for one.
pub open spec fn digit_value(c: char) -> Option<int> {
    if c == '0' {
        Some(0)
    } else if c == '1' {
        Some(1)
    } else if c == '2' {
        Some(2)
    } else if c == '3' {
        Some(3)
    } else if c == '4' {
        Some(4)
    } else if c == '5' {
        Some(5)
    } else if c == '6' {
        Some(6)
    } else if c == '7' {
        Some(7)
    } else if c == '8' {
        Some(8)
    } else if c == '9' {
        Some(9)
    } else {
        None
    }
}

/// Every character of `s` is a decimal digit.
pub open spec fn all_digits(s: Seq<char>) -> bool {
    forall|i: int| 0 <= i < s.len() ==> digit_value(#[trigger] s[i]) is Some
}

/// The number that the decimal digits `s` write.
pub open spec fn digits_value(s: Seq<char>) -> int
    decreases s.len(),
{
    if s.len() == 0 {
        0
    } else {
        digits_value(s.drop_last()) * 10 + digit_value(s.last()).unwrap()
    }
}

/// `s` without the plus sign that may stand in front of a number.
pub open spec fn unsigned(s: Seq<char>) -> Seq<char> {
    if s.len() > 0 && s[0] == '+' {
        s.drop_first()
    } else {
        s
    }
}

/// The number from 0 to 255 that `s` writes in decimal digits, with or
/// without a plus sign and leading zeros; `None` where `s` writes no such
/// number.
pub open spec fn parsed_u8(s: Seq<char>) -> Option<u8> {
    let body = unsigned(s);
    if body.len() > 0 && all_digits(body) && digits_value(body) <= u8::MAX {
        Some(digits_value(body) as u8)
    } else {
        None
    }
}

/// The pieces into which the separator `sep` cuts `s`. A text without
/// separator is one piece; two separators in a row hold an empty piece.
pub open spec fn split(s: Seq<char>, sep: char) -> Seq<Seq<char>>
    decreases s.len(),
{
    if s.len() == 0 {
        seq![Seq::empty()]
    } else {
        let rest = split(s.drop_last(), sep);
        if s.last() == sep {
            rest.push(Seq::empty())
        } else {
            rest.update(rest.len() - 1, rest.last().push(s.last()))
        }
    }
}

/// The characters of `s`.
pub fn chars_of(s: &str) -> (chars: Vec<char>)
    ensures
        chars@ == s@,
{
    broadcast use vstd::string::group_string_axioms;

    let mut chars: Vec<char> = Vec::new();
    for c in it: s.chars()
        invariant
            it.seq() == s@,
            chars@ == it.seq().take(it.index()),
    {
        assert(it.seq().take(it.index() + 1) =~= it.seq().take(it.index()).push(c));
        chars.push(c);
    }
    assert(s@.take(s@.len() as int) =~= s@);
    chars
}

/// The digit that the character stands for, if it stands for one.
fn digit_of(c: char) -> (r: Option<u8>)
    ensures
        match r {
            Some(d) => digit_value(c) == Some(d as int),
            None => digit_value(c) is None,
        },
{
    if c == '0' {
        Some(0)
    } else if c == '1' {
        Some(1)
    } else if c == '2' {
        Some(2)
    } else if c == '3' {
        Some(3)
    } else if c == '4' {
        Some(4)
    } else if c == '5' {
        Some(5)
    } else if c == '6' {
        Some(6)
    } else if c == '7' {
        Some(7)
    } else if c == '8' {
        Some(8)
    } else if c == '9' {
        Some(9)
    } else {
        None
    }
}

/// The digits of a number write at least what its first digits write.
pub proof fn lemma_digits_grow(s: Seq<char>, k: int)
    requires
        all_digits(s),
        0 <= k <= s.len(),
    ensures
        0 <= digits_value(s.take(k)) <= digits_value(s),
    decreases s.len() - k,
{
    if k == s.len() {
        assert(s.take(k) =~= s);
        lemma_digits_positive(s);
    } else {
        lemma_digits_grow(s, k + 1);
        let more = s.take(k + 1);
        assert(more.drop_last() =~= s.take(k));
        assert(more.last() == s[k]);
        lemma_digits_positive(s.take(k));
    }
}

proof fn lemma_digits_positive(s: Seq<char>)
    requires
        all_digits(s),
    ensures
        0 <= digits_value(s),
    decreases s.len(),
{
    if s.len() > 0 {
        assert(all_digits(s.drop_last())) by {
            assert forall|i: int| 0 <= i < s.drop_last().len() implies digit_value(
                #[trigger] s.drop_last()[i],
            ) is Some by {
                assert(s.drop_last()[i] == s[i]);
            }
        }
        lemma_digits_positive(s.drop_last());
        assert(digit_value(s[s.len() - 1]) is Some);
    }
}

/// Reads the characters from `from` up to `to` as a number from 0 to 255.
pub fn parse_u8(chars: &Vec<char>, from: usize, to: usize) -> (r: Option<u8>)
    requires
        from <= to <= chars@.len(),
    ensures
        r == parsed_u8(chars@.subrange(from as int, to as int)),
{
    let ghost whole = chars@.subrange(from as int, to as int);
    let mut i: usize = from;
    if i < to && chars[i] == '+' {
        i += 1;
    }
    let ghost body = chars@.subrange(i as int, to as int);
    proof {
        assert(body =~= unsigned(whole));
    }
    if i == to {
        return None;
    }
    let first = i;
    let mut acc: u32 = 0;
    proof {
        assert(body.take(0) =~= Seq::empty());
    }
    while i < to
        invariant
            from <= first <= i <= to <= chars@.len(),
            body == chars@.subrange(first as int, to as int),
            body == unsigned(chars@.subrange(from as int, to as int)),
            all_digits(body.take(i - first)),
            acc == digits_value(body.take(i - first)),
            acc <= u8::MAX,
        decreases to - i,
    {
        let ghost k = (i - first) as int;
        proof {
            assert(body.take(k + 1).drop_last() =~= body.take(k));
            assert(body.take(k + 1).last() == chars@[i as int]);
        }
        match digit_of(chars[i]) {
            None => {
                proof {
                    assert(body[k] == chars@[i as int]);
                }
                return None;
            },
            Some(d) => {
                acc = acc * 10 + d as u32;
                proof {
                    assert forall|m: int| 0 <= m < k + 1 implies digit_value(
                        #[trigger] body.take(k + 1)[m],
                    ) is Some by {
                        if m < k {
                            assert(body.take(k)[m] == body.take(k + 1)[m]);
                        }
                    }
                }
                if acc > 255 {
                    proof {
                        if all_digits(body) {
                            lemma_digits_grow(body, k + 1);
                        }
                    }
                    return None;
                }
            },
        }
        i += 1;
    }
    proof {
        assert(body.take(i - first) =~= body);
    }
    Some(acc as u8)
}

/// Where the pieces lie into which `sep` cuts the characters from `from` up
/// to `to`: for each piece, where it begins and where it ends.
pub fn split_ranges(chars: &Vec<char>, from: usize, to: usize, sep: char) -> (ranges: Vec<
    (usize, usize),
>)
    requires
        from <= to <= chars@.len(),
    ensures
        ranges@.len() == split(chars@.subrange(from as int, to as int), sep).len(),
        forall|m: int|
            0 <= m < ranges@.len() ==> {
                &&& from <= (#[trigger] ranges@[m]).0 <= ranges@[m].1 <= to
                &&& split(chars@.subrange(from as int, to as int), sep)[m] == chars@.subrange(
                    ranges@[m].0 as int,
                    ranges@[m].1 as int,
                )
            },
        ranges@[0].0 == from,
        ranges@.last().1 == to,
        forall|m: int, n: int|
            0 <= m && n == m + 1 && n < ranges@.len() ==> (#[trigger] ranges@[n]).0 == (
            #[trigger] ranges@[m]).1 + 1,
{
    let ghost whole = chars@.subrange(from as int, to as int);
    let mut ranges: Vec<(usize, usize)> = Vec::new();
    let mut begin: usize = from;
    let mut i: usize = from;
    proof {
        assert(whole.take(0) =~= Seq::empty());
        assert(chars@.subrange(from as int, from as int) =~= Seq::empty());
    }
    while i < to
        invariant
            from <= begin <= i <= to <= chars@.len(),
            whole == chars@.subrange(from as int, to as int),
            split(whole.take(i - from), sep).len() == ranges@.len() + 1,
            split(whole.take(i - from), sep).last() == chars@.subrange(begin as int, i as int),
            begin == if ranges@.len() == 0 {
                from as int
            } else {
                ranges@.last().1 + 1
            },
            ranges@.len() > 0 ==> ranges@[0].0 == from,
            forall|m: int, n: int|
                0 <= m && n == m + 1 && n < ranges@.len() ==> (#[trigger] ranges@[n]).0 == (
                #[trigger] ranges@[m]).1 + 1,
            forall|m: int|
                0 <= m < ranges@.len() ==> {
                    &&& from <= (#[trigger] ranges@[m]).0 <= ranges@[m].1 <= to
                    &&& split(whole.take(i - from), sep)[m] == chars@.subrange(
                        ranges@[m].0 as int,
                        ranges@[m].1 as int,
                    )
                },
        decreases to - i,
    {
        let ghost k = (i - from) as int;
        let ghost before = split(whole.take(k), sep);
        proof {
            assert(whole.take(k + 1).drop_last() =~= whole.take(k));
            assert(whole.take(k + 1).last() == chars@[i as int]);
        }
        if chars[i] == sep {
            ranges.push((begin, i));
            begin = i + 1;
            proof {
                assert(chars@.subrange(begin as int, begin as int) =~= Seq::empty());
            }
        } else {
            proof {
                assert(chars@.subrange(begin as int, i as int).push(chars@[i as int])
                    =~= chars@.subrange(begin as int, i + 1));
            }
        }
        i += 1;
    }
    proof {
        assert(whole.take(i - from) =~= whole);
    }
    ranges.push((begin, to));
    ranges
}

} // verus!
