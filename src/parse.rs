//! Comma-separated lists of decimal `u32` values, as keyword queries and the
//! lines of graph and keyword files write them.

use vstd::prelude::*;

verus! {

/// Why a list could not be read.
#[derive(Debug, Clone, Copy, PartialEq, Eq, Structural)]
pub enum ParseError {
    /// A line lacks the `:` that ends its leading identifier.
    MissingColon,
    /// A field is not a decimal `u32`: empty, not all digits, or too large.
    InvalidNumber,
}

/// `c` is an ASCII decimal digit.
pub open spec fn is_digit(c: char) -> bool {
    '0' <= c && c <= '9'
}

/// The value of a string of decimal digits.
pub open spec fn digits_value(s: Seq<char>) -> int
    decreases s.len(),
{
    if s.len() == 0 {
        0
    } else {
        digits_value(s.drop_last()) * 10 + (s.last() as int - '0' as int)
    }
}

/// The digits of a number, without the `+` that may lead them.
pub open spec fn unsigned_digits(s: Seq<char>) -> Seq<char> {
    if s.len() > 0 && s[0] == '+' {
        s.drop_first()
    } else {
        s
    }
}

/// The `u32` that `s` writes: an optional `+`, then one or more decimal
/// digits whose value fits in 32 bits.
pub open spec fn number_value(s: Seq<char>) -> Option<u32> {
    let d = unsigned_digits(s);
    if d.len() > 0 && (forall|i: int| 0 <= i < d.len() ==> is_digit(#[trigger] d[i])) && digits_value(d)
        <= u32::MAX {
        Some(digits_value(d) as u32)
    } else {
        None
    }
}

/// The pieces of `s` between commas; a string without a comma is one piece.
pub open spec fn pieces(s: Seq<char>) -> Seq<Seq<char>>
    decreases s.len(),
{
    if s.len() == 0 {
        seq![Seq::empty()]
    } else {
        let p = pieces(s.drop_last());
        if s.last() == ',' {
            p.push(Seq::empty())
        } else {
            p.update(p.len() - 1, p.last().push(s.last()))
        }
    }
}

/// The values of all pieces, or `None` where one is not a number.
pub open spec fn numbers_value(ps: Seq<Seq<char>>) -> Option<Seq<u32>>
    decreases ps.len(),
{
    if ps.len() == 0 {
        Some(Seq::empty())
    } else {
        match (numbers_value(ps.drop_last()), number_value(ps.last())) {
            (Some(a), Some(x)) => Some(a.push(x)),
            _ => None,
        }
    }
}

/// The comma-separated list of numbers that `s` writes, if it writes one.
pub open spec fn number_list(s: Seq<char>) -> Option<Seq<u32>> {
    numbers_value(pieces(s))
}

proof fn lemma_pieces_nonempty(s: Seq<char>)
    ensures
        pieces(s).len() > 0,
    decreases s.len(),
{
    if s.len() > 0 {
        lemma_pieces_nonempty(s.drop_last());
    }
}

/// The characters of `s`.
fn chars_of(s: &str) -> (r: Vec<char>)
    ensures
        r@ == s@,
{
    let mut r: Vec<char> = Vec::new();
    for c in it: s.chars()
        invariant
            it.seq() == s@,
            r@ == it.seq().subrange(0, it.index() as int),
    {
        r.push(c);
    }
    r
}

/// Reads the number written by `cs[start..end]`.
fn parse_number(cs: &Vec<char>, start: usize, end: usize) -> (r: Option<u32>)
    requires
        start <= end <= cs@.len(),
    ensures
        r == number_value(cs@.subrange(start as int, end as int)),
{
    let ghost s = cs@.subrange(start as int, end as int);
    let mut i = start;
    if i < end && cs[i] == '+' {
        i = i + 1;
    }
    let ghost d = cs@.subrange(i as int, end as int);
    assert(d == unsigned_digits(s));
    if i == end {
        return None;
    }
    let mut value: u64 = 0;
    let mut all_digits = true;
    let first = i;
    while i < end
        invariant
            first <= i <= end <= cs@.len(),
            d == cs@.subrange(first as int, end as int),
            all_digits == (forall|t: int| first <= t < i ==> is_digit(#[trigger] cs@[t])),
            all_digits ==> value == if digits_value(cs@.subrange(first as int, i as int)) <= u32::MAX {
                digits_value(cs@.subrange(first as int, i as int))
            } else {
                u32::MAX + 1
            },
            all_digits ==> digits_value(cs@.subrange(first as int, i as int)) >= 0,
            value <= u32::MAX + 1,
        decreases end - i,
    {
        let c = cs[i];
        if '0' <= c && c <= '9' {
            let ghost pre = cs@.subrange(first as int, i as int);
            let ghost next = cs@.subrange(first as int, i + 1);
            assert(next.drop_last() =~= pre);
            let digit = (c as u32 - '0' as u32) as u64;
            let grown = value * 10 + digit;
            if all_digits {
                proof {
                    let pv = digits_value(pre);
                    if pv > u32::MAX {
                        assert(pv * 10 + digit >= pv) by (nonlinear_arith)
                            requires pv >= 0, digit >= 0;
                    }
                }
            }
            value = if grown > 0x1_0000_0000 { 0x1_0000_0000 } else { grown };
        } else {
            all_digits = false;
        }
        i = i + 1;
    }
    if all_digits && value <= 0xffff_ffff {
        assert(forall|t: int| 0 <= t < d.len() ==> is_digit(#[trigger] d[t]) <== is_digit(cs@[first + t]));
        Some(value as u32)
    } else {
        proof {
            if !all_digits {
                let t = choose|t: int| first <= t < end && !is_digit(#[trigger] cs@[t]);
                assert(d[t - first] == cs@[t]);
            }
        }
        None
    }
}

/// Reads the comma-separated list of numbers written by `cs[lo..hi]`.
fn parse_list(cs: &Vec<char>, lo: usize, hi: usize) -> (r: Result<Vec<u32>, ParseError>)
    requires
        lo <= hi <= cs@.len(),
    ensures
        match r {
            Ok(v) => number_list(cs@.subrange(lo as int, hi as int)) == Some(v@),
            Err(e) => number_list(cs@.subrange(lo as int, hi as int)) is None && e == ParseError::InvalidNumber,
        },
{
    let mut out: Vec<u32> = Vec::new();
    let mut ok = true;
    let mut start: usize = lo;
    let mut i: usize = lo;
    proof {
        assert(cs@.subrange(lo as int, lo as int) =~= Seq::<char>::empty());
    }
    while i < hi
        invariant
            hi <= cs@.len(),
            lo <= start <= i <= hi,
            pieces(cs@.subrange(lo as int, i as int)).last() == cs@.subrange(start as int, i as int),
            ok ==> numbers_value(pieces(cs@.subrange(lo as int, i as int)).drop_last()) == Some(out@),
            !ok ==> numbers_value(pieces(cs@.subrange(lo as int, i as int)).drop_last()) is None,
        decreases hi - i,
    {
        let ghost pre = cs@.subrange(lo as int, i as int);
        let ghost next = cs@.subrange(lo as int, i + 1);
        proof {
            assert(next.drop_last() =~= pre);
            lemma_pieces_nonempty(pre);
        }
        if cs[i] == ',' {
            let x = parse_number(cs, start, i);
            proof {
                assert(pieces(next).drop_last() =~= pieces(pre));
                assert(pieces(pre) =~= pieces(pre).drop_last().push(pieces(pre).last()));
                assert(cs@.subrange(i + 1, i + 1) =~= Seq::<char>::empty());
            }
            match x {
                Some(v) => {
                    if ok {
                        out.push(v);
                    }
                },
                None => {
                    ok = false;
                },
            }
            start = i + 1;
        } else {
            proof {
                let p = pieces(pre);
                assert(pieces(next).drop_last() =~= p.drop_last());
                assert(cs@.subrange(start as int, i + 1) =~= cs@.subrange(start as int, i as int).push(
                    cs@[i as int],
                ));
            }
        }
        i = i + 1;
    }
    let x = parse_number(cs, start, hi);
    proof {
        let all = cs@.subrange(lo as int, hi as int);
        lemma_pieces_nonempty(all);
        assert(pieces(all) =~= pieces(all).drop_last().push(pieces(all).last()));
    }
    match x {
        Some(v) => {
            if ok {
                out.push(v);
                Ok(out)
            } else {
                Err(ParseError::InvalidNumber)
            }
        },
        None => Err(ParseError::InvalidNumber),
    }
}

/// Reads a comma-separated list of decimal `u32` values, such as `1,2,3`.
pub fn parse_keywords(s: &str) -> (r: Result<Vec<u32>, ParseError>)
    ensures
        match r {
            Ok(v) => number_list(s@) == Some(v@),
            Err(e) => number_list(s@) is None && e == ParseError::InvalidNumber,
        },
{
    let cs = chars_of(s);
    assert(cs@.subrange(0, cs@.len() as int) =~= s@);
    parse_list(&cs, 0, cs.len())
}

/// `c` is white space in Unicode's sense, as `char::is_whitespace` decides.
pub open spec fn is_white_space(c: char) -> bool {
    ||| '\u{9}' <= c && c <= '\u{d}'
    ||| c == ' '
    ||| c == '\u{85}'
    ||| c == '\u{a0}'
    ||| c == '\u{1680}'
    ||| '\u{2000}' <= c && c <= '\u{200a}'
    ||| c == '\u{2028}'
    ||| c == '\u{2029}'
    ||| c == '\u{202f}'
    ||| c == '\u{205f}'
    ||| c == '\u{3000}'
}

/// A character trimmed off both ends of a line's list: white space or a comma.
pub open spec fn is_padding(c: char) -> bool {
    is_white_space(c) || c == ','
}

/// `s` without the padding that leads it.
pub open spec fn trim_front(s: Seq<char>) -> Seq<char>
    decreases s.len(),
{
    if s.len() > 0 && is_padding(s[0]) {
        trim_front(s.drop_first())
    } else {
        s
    }
}

/// `s` without the padding that ends it.
pub open spec fn trim_back(s: Seq<char>) -> Seq<char>
    decreases s.len(),
{
    if s.len() > 0 && is_padding(s.last()) {
        trim_back(s.drop_last())
    } else {
        s
    }
}

/// `s` without padding at either end.
pub open spec fn trim_padding(s: Seq<char>) -> Seq<char> {
    trim_back(trim_front(s))
}

/// `i` is the place of the first `:` in `s`.
pub open spec fn is_first_colon(s: Seq<char>, i: int) -> bool {
    0 <= i < s.len() && s[i] == ':' && forall|j: int| 0 <= j < i ==> s[j] != ':'
}

/// What a line `id:list` of a graph or keyword file holds: the identifier
/// before the first `:`, and the comma-separated list after it, padding
/// trimmed.
pub open spec fn line_value(s: Seq<char>) -> Result<(u32, Seq<u32>), ParseError> {
    if !s.contains(':') {
        Err(ParseError::MissingColon)
    } else {
        let i = choose|i: int| is_first_colon(s, i);
        match (number_value(s.subrange(0, i)), number_list(trim_padding(s.subrange(i + 1, s.len() as int)))) {
            (Some(id), Some(list)) => Ok((id, list)),
            _ => Err(ParseError::InvalidNumber),
        }
    }
}

/// Decides `is_white_space`.
fn white_space(c: char) -> (r: bool)
    ensures
        r == is_white_space(c),
{
    ('\u{9}' <= c && c <= '\u{d}') || c == ' ' || c == '\u{85}' || c == '\u{a0}' || c == '\u{1680}'
        || ('\u{2000}' <= c && c <= '\u{200a}') || c == '\u{2028}' || c == '\u{2029}' || c == '\u{202f}'
        || c == '\u{205f}' || c == '\u{3000}'
}

/// Reads a line `id:list`, such as `7:1,2,3`.
pub fn parse_line(line: &str) -> (r: Result<(u32, Vec<u32>), ParseError>)
    ensures
        match r {
            Ok((id, list)) => line_value(line@) == Ok::<(u32, Seq<u32>), ParseError>((id, list@)),
            Err(e) => line_value(line@) == Err::<(u32, Seq<u32>), ParseError>(e),
        },
{
    let cs = chars_of(line);
    let n = cs.len();
    let mut colon: usize = 0;
    while colon < n && cs[colon] != ':'
        invariant
            colon <= n,
            n == cs@.len(),
            forall|j: int| 0 <= j < colon ==> cs@[j] != ':',
        decreases n - colon,
    {
        colon = colon + 1;
    }
    if colon == n {
        assert(!line@.contains(':'));
        return Err(ParseError::MissingColon);
    }
    let ghost s = line@;
    proof {
        assert(is_first_colon(s, colon as int));
        assert(s.contains(':'));
        let i = choose|i: int| is_first_colon(s, i);
        assert(i == colon) by {
            if i < colon {
                assert(s[i] != ':');
            } else if i > colon {
                assert(s[colon as int] != ':');
            }
        }
    }
    let id = match parse_number(&cs, 0, colon) {
        Some(id) => id,
        None => {
            return Err(ParseError::InvalidNumber);
        },
    };
    let ghost tail = cs@.subrange(colon + 1, n as int);
    let mut lo = colon + 1;
    while lo < n && (white_space(cs[lo]) || cs[lo] == ',')
        invariant
            colon < lo <= n,
            n == cs@.len(),
            tail == cs@.subrange(colon + 1, n as int),
            trim_front(tail) == trim_front(cs@.subrange(lo as int, n as int)),
        decreases n - lo,
    {
        assert(cs@.subrange(lo as int, n as int).drop_first() =~= cs@.subrange(lo + 1, n as int));
        lo = lo + 1;
    }
    assert(trim_front(cs@.subrange(lo as int, n as int)) == cs@.subrange(lo as int, n as int));
    let mut hi = n;
    while hi > lo && (white_space(cs[hi - 1]) || cs[hi - 1] == ',')
        invariant
            lo <= hi <= n,
            n == cs@.len(),
            trim_back(trim_front(tail)) == trim_back(cs@.subrange(lo as int, hi as int)),
        decreases hi,
    {
        assert(cs@.subrange(lo as int, hi as int).drop_last() =~= cs@.subrange(lo as int, hi - 1));
        hi = hi - 1;
    }
    assert(trim_back(cs@.subrange(lo as int, hi as int)) == cs@.subrange(lo as int, hi as int));
    match parse_list(&cs, lo, hi) {
        Ok(list) => Ok((id, list)),
        Err(e) => Err(e),
    }
}

} // verus!
