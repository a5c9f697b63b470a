use vstd::prelude::*;
use crate::grammar::{digits_end, number_at, ws_end};

verus! {

/// What was expected where a description could not be read.
#[derive(Debug, Clone, Copy, PartialEq, Eq, Structural)]
pub enum Expected {
    /// a gear: `g`, `c` or `e`
    Gear,
    /// a tooth count: one or more digits, fitting in 32 bits
    Number,
    /// a tooth count of at least one
    NonZeroTeeth,
    /// a symbol list: `{` or `"`
    Symbols,
    /// at least one symbol
    NonEmptySymbols,
    /// a quoted string
    Str,
    /// the closing quote of the string opened here
    ClosingQuote,
    /// `,` or `}`
    CommaOrBrace,
    /// `,` or `]`
    CommaOrBracket,
    /// the end of the input
    End,
}

/// Where a description could not be read (in characters from its start), and what was expected there.
#[derive(Debug)]
pub struct SyntaxError {
    pub offset: usize,
    pub expected: Expected,
}

pub open spec fn is_ws(c: char) -> bool {
    c == ' ' || c == '\t' || c == '\n'
}

pub open spec fn is_digit(c: char) -> bool {
    '0' <= c && c <= '9'
}

pub open spec fn digit_value(c: char) -> int {
    match c {
        '1' => 1,
        '2' => 2,
        '3' => 3,
        '4' => 4,
        '5' => 5,
        '6' => 6,
        '7' => 7,
        '8' => 8,
        '9' => 9,
        _ => 0,
    }
}

/// The number that a run of decimal digits writes.
pub open spec fn digits_value(t: Seq<char>) -> int
    decreases t.len(),
{
    if t.len() == 0 {
        0
    } else {
        digits_value(t.subrange(0, t.len() - 1)) * 10 + digit_value(t[t.len() - 1])
    }
}

/// Reading a quoted string's body from `i` (just after its opening quote):
/// its content, with `\x` standing for `x`, and where its closing quote is;
/// `None` where no closing quote follows.
pub open spec fn scan_string(s: Seq<char>, i: int) -> Option<(Seq<char>, int)>
    decreases s.len() - i,
{
    if i < 0 || i >= s.len() {
        None
    } else if s[i] == '"' {
        Some((Seq::empty(), i))
    } else if s[i] == '\\' {
        if i + 1 >= s.len() {
            None
        } else {
            match scan_string(s, i + 2) {
                Some(r) => Some((seq![s[i + 1]] + r.0, r.1)),
                None => None,
            }
        }
    } else {
        match scan_string(s, i + 1) {
            Some(r) => Some((seq![s[i]] + r.0, r.1)),
            None => None,
        }
    }
}

fn digit(c: char) -> (d: Option<u32>)
    ensures
        d is Some <==> is_digit(c),
        d matches Some(v) ==> v == digit_value(c) && v <= 9,
{
    match c {
        '0' => Some(0),
        '1' => Some(1),
        '2' => Some(2),
        '3' => Some(3),
        '4' => Some(4),
        '5' => Some(5),
        '6' => Some(6),
        '7' => Some(7),
        '8' => Some(8),
        '9' => Some(9),
        _ => None,
    }
}

/// Skips whitespace and `;` comments (each running to the end of its line).
pub fn skip_ws(s: &str, len: usize, pos: usize) -> (r: usize)
    requires
        len == s@.len(),
        pos <= len,
    ensures
        pos <= r <= len,
        r == ws_end(s@, pos as int, false),
        r < len ==> !is_ws(s@[r as int]) && s@[r as int] != ';',
{
    let mut i = pos;
    while i < len
        invariant
            len == s@.len(),
            pos <= i <= len,
            ws_end(s@, pos as int, false) == ws_end(s@, i as int, false),
        decreases len - i,
    {
        let c = s.get_char(i);
        if c == ' ' || c == '\t' || c == '\n' {
            i = i + 1;
        } else if c == ';' {
            let ghost start = i;
            i = i + 1;
            while i < len && s.get_char(i) != '\n'
                invariant
                    len == s@.len(),
                    pos <= i <= len,
                    start < i,
                    ws_end(s@, pos as int, false) == ws_end(s@, i as int, true),
                decreases len - i,
            {
                i = i + 1;
            }
            if i < len {
                i = i + 1;
            }
        } else {
            return i;
        }
    }
    i
}

proof fn lemma_digits_end(s: Seq<char>, i: int, e: int)
    requires
        0 <= i <= e <= s.len(),
        forall|k: int| i <= k < e ==> is_digit(#[trigger] s[k]),
        e == s.len() || !is_digit(s[e]),
    ensures
        digits_end(s, i) == e,
    decreases e - i,
{
    if i < e {
        lemma_digits_end(s, i + 1, e);
    }
}

proof fn lemma_digits_grow(s: Seq<char>, i: int, a: int, b: int)
    requires
        0 <= i <= a <= b <= s.len(),
    ensures
        digits_value(s.subrange(i, b)) >= digits_value(s.subrange(i, a)),
    decreases b - a,
{
    if a < b {
        lemma_digits_grow(s, i, a, b - 1);
        lemma_digits_nonneg(s.subrange(i, b - 1));
        assert(s.subrange(i, b).subrange(0, b - 1 - i) =~= s.subrange(i, b - 1));
    }
}

proof fn lemma_digits_nonneg(t: Seq<char>)
    ensures
        digits_value(t) >= 0,
    decreases t.len(),
{
    if t.len() > 0 {
        lemma_digits_nonneg(t.subrange(0, t.len() - 1));
    }
}

/// Reads a tooth count: the longest run of digits at `pos`, which must write
/// a number that fits in 32 bits.
pub fn parse_number(s: &str, len: usize, pos: usize) -> (r: Result<(u32, usize), SyntaxError>)
    requires
        len == s@.len(),
        pos <= len,
    ensures
        match r {
            Ok((n, e)) => number_at(s@, pos as int) == Ok::<(u32, int), (int, Expected)>((n, e as int)),
            Err(err) => number_at(s@, pos as int) == Err::<(u32, int), (int, Expected)>((err.offset as int, err.expected)),
        },
        r matches Ok((n, e)) ==> pos < e <= len,
        r matches Err(err) ==> err.offset == pos,
{
    let mut i = pos;
    let mut v: u32 = 0;
    let mut stopped = false;
    while i < len && !stopped
        invariant
            len == s@.len(),
            pos <= i <= len,
            stopped ==> i < len && !is_digit(s@[i as int]),
            forall|k: int| pos <= k < i ==> is_digit(#[trigger] s@[k]),
            v == digits_value(s@.subrange(pos as int, i as int)),
        decreases len - i + if stopped { 0int } else { 1int },
    {
        let c = s.get_char(i);
        match digit(c) {
            None => {
                stopped = true;
            },
            Some(d) => {
                proof {
                    assert(s@.subrange(pos as int, i + 1).subrange(0, i - pos) =~= s@.subrange(
                        pos as int,
                        i as int,
                    ));
                }
                if v > (u32::MAX - d) / 10 {
                    proof {
                        let q = (u32::MAX - d) / 10;
                        assert(v * 10 + d > u32::MAX) by (nonlinear_arith)
                            requires
                                v > q,
                                q == (u32::MAX - d) / 10,
                                0 <= d <= 9,
                        ;
                        let e = digits_end(s@, pos as int);
                        lemma_digits_run(s@, pos as int, i + 1);
                        lemma_digits_grow(s@, pos as int, i + 1, e);
                    }
                    return Err(SyntaxError { offset: pos, expected: Expected::Number });
                }
                v = v * 10 + d;
                i = i + 1;
            },
        }
    }
    proof {
        lemma_digits_end(s@, pos as int, i as int);
    }
    if i == pos {
        return Err(SyntaxError { offset: pos, expected: Expected::Number });
    }
    Ok((v, i))
}

proof fn lemma_digits_run(s: Seq<char>, i: int, j: int)
    requires
        0 <= i <= j <= s.len(),
        forall|k: int| i <= k < j ==> is_digit(#[trigger] s[k]),
    ensures
        j <= digits_end(s, i) <= s.len(),
    decreases j - i,
{
    if i < j {
        lemma_digits_run(s, i + 1, j);
    } else {
        lemma_digits_end_bound(s, i);
    }
}

proof fn lemma_digits_end_bound(s: Seq<char>, i: int)
    requires
        0 <= i <= s.len(),
    ensures
        i <= digits_end(s, i) <= s.len(),
    decreases s.len() - i,
{
    if i < s.len() && is_digit(s[i]) {
        lemma_digits_end_bound(s, i + 1);
    }
}

/// Reads a quoted string at `pos` (where `s@[pos]` is `"`): its content and
/// the position after its closing quote. An unterminated string is reported
/// at its opening quote.
pub fn parse_string(s: &str, len: usize, pos: usize) -> (r: Result<(String, usize), SyntaxError>)
    requires
        len == s@.len(),
        pos < len,
        s@[pos as int] == '"',
    ensures
        r matches Ok((t, e)) ==> scan_string(s@, pos + 1) == Some((t@, e - 1)),
        r is Err <==> scan_string(s@, pos + 1) is None,
        r matches Err(err) ==> err.offset == pos && err.expected == Expected::ClosingQuote,
{
    let mut out = String::new();
    let mut i = pos + 1;
    while i < len
        invariant
            len == s@.len(),
            pos < i <= len,
            scan_string(s@, pos + 1) == match scan_string(s@, i as int) {
                Some(r) => Some((out@ + r.0, r.1)),
                None => None,
            },
        decreases len - i,
    {
        let c = s.get_char(i);
        if c == '"' {
            assert(out@ + Seq::<char>::empty() =~= out@);
            return Ok((out, i + 1));
        }
        if c == '\\' {
            if i + 1 >= len {
                return Err(SyntaxError { offset: pos, expected: Expected::ClosingQuote });
            }
            let piece = s.substring_char(i + 1, i + 2);
            proof {
                let r = scan_string(s@, i + 2);
                if let Some(rr) = r {
                    assert(out@ + (seq![s@[i + 1]] + rr.0) =~= out@ + piece@ + rr.0);
                }
            }
            out.append(piece);
            i = i + 2;
        } else {
            let piece = s.substring_char(i, i + 1);
            proof {
                let r = scan_string(s@, i + 1);
                if let Some(rr) = r {
                    assert(out@ + (seq![s@[i as int]] + rr.0) =~= out@ + piece@ + rr.0);
                }
            }
            out.append(piece);
            i = i + 1;
        }
    }
    Err(SyntaxError { offset: pos, expected: Expected::ClosingQuote })
}

} // verus!
