use vstd::prelude::*;
use crate::gears::Gear;
use crate::lexer::{Expected, digits_value, is_digit, is_ws, scan_string};

verus! {

/// A gear train as the description writes it.
pub enum GearModel {
    Rotator(u32, Seq<GearModel>, Option<Box<GearModel>>),
    Counter(u32, Option<Seq<char>>, Seq<Seq<char>>, Option<Box<GearModel>>),
    Ender(u32),
}

pub open spec fn model_opt(c: Option<Box<Gear>>) -> Option<Box<GearModel>>
    decreases c,
{
    match c {
        Some(g) => Some(Box::new(model(*g))),
        None => None,
    }
}

/// What a gear holds, as the description writes it.
pub open spec fn model(g: Gear) -> GearModel
    decreases g,
{
    match g {
        Gear::Rotator(ng) => GearModel::Rotator(ng.n, models(ng.parrarel@), model_opt(ng.child)),
        Gear::Counter(cg) => GearModel::Counter(
            cg.n,
            match cg.label {
                Some(l) => Some(l@),
                None => None,
            },
            cg.symbols@.map_values(|t: String| t@),
            model_opt(cg.child),
        ),
        Gear::Ender(eg) => GearModel::Ender(eg.n),
    }
}

pub open spec fn models(ps: Seq<Gear>) -> Seq<GearModel>
    decreases ps,
{
    if ps.len() == 0 {
        Seq::empty()
    } else {
        models(ps.subrange(0, ps.len() - 1)).push(model(ps[ps.len() - 1]))
    }
}

/// Where whitespace and comments starting at `i` end (`in_comment`: inside
/// a comment, which runs through the end of its line).
pub open spec fn ws_end(s: Seq<char>, i: int, in_comment: bool) -> int
    decreases s.len() - i,
{
    if i < 0 || i >= s.len() {
        i
    } else if in_comment {
        ws_end(s, i + 1, s[i] != '\n')
    } else if is_ws(s[i]) {
        ws_end(s, i + 1, false)
    } else if s[i] == ';' {
        ws_end(s, i + 1, true)
    } else {
        i
    }
}

pub proof fn lemma_ws_end_bounds(s: Seq<char>, i: int, in_comment: bool)
    requires
        0 <= i <= s.len(),
    ensures
        i <= ws_end(s, i, in_comment) <= s.len(),
    decreases s.len() - i,
{
    if i < s.len() {
        if in_comment {
            lemma_ws_end_bounds(s, i + 1, s[i] != '\n');
        } else if is_ws(s[i]) || s[i] == ';' {
            lemma_ws_end_bounds(s, i + 1, s[i] == ';');
        }
    }
}

pub open spec fn skip(s: Seq<char>, i: int) -> int {
    ws_end(s, i, false)
}

/// Where the run of digits starting at `i` ends.
pub open spec fn digits_end(s: Seq<char>, i: int) -> int
    decreases s.len() - i,
{
    if 0 <= i < s.len() && is_digit(s[i]) {
        digits_end(s, i + 1)
    } else {
        i
    }
}

pub type Parsed<T> = Result<(T, int), (int, Expected)>;

/// A tooth count at `i`: the run of digits there, fitting in 32 bits.
pub open spec fn number_at(s: Seq<char>, i: int) -> Parsed<u32> {
    let e = digits_end(s, i);
    let v = digits_value(s.subrange(i, e));
    if e == i || v > u32::MAX {
        Err((i, Expected::Number))
    } else {
        Ok((v as u32, e))
    }
}

/// A tooth count of at least one, after whitespace at `i`.
pub open spec fn teeth_at(s: Seq<char>, i: int) -> Parsed<u32> {
    let j = skip(s, i);
    match number_at(s, j) {
        Ok((n, e)) => if n == 0 {
            Err((j, Expected::NonZeroTeeth))
        } else {
            Ok((n, e))
        },
        Err(x) => Err(x),
    }
}

/// A quoted string at `i`.
pub open spec fn string_at(s: Seq<char>, i: int) -> Parsed<Seq<char>> {
    if 0 <= i < s.len() && s[i] == '"' {
        match scan_string(s, i + 1) {
            Some((t, q)) => Ok((t, q + 1)),
            None => Err((i, Expected::ClosingQuote)),
        }
    } else {
        Err((i, Expected::Str))
    }
}

/// The rest of a `{...}` symbol list from `i`, where a string is due.
pub open spec fn symbols_rest(s: Seq<char>, i: int) -> Parsed<Seq<Seq<char>>>
    decreases s.len() - i,
{
    match string_at(s, i) {
        Err(x) => Err(x),
        Ok((t, q)) => {
            let j = skip(s, q);
            if 0 <= j < s.len() && s[j] == ',' {
                let k = skip(s, j + 1);
                if i < k <= s.len() {
                    match symbols_rest(s, k) {
                        Ok((v, e)) => Ok((seq![t] + v, e)),
                        Err(x) => Err(x),
                    }
                } else {
                    Err((k, Expected::Str))
                }
            } else if 0 <= j < s.len() && s[j] == '}' {
                Ok((seq![t], j + 1))
            } else {
                Err((j, Expected::CommaOrBrace))
            }
        },
    }
}

/// The symbols of a counter at `i`: a `{...}` list, or a string whose
/// characters are the symbols.
pub open spec fn symbols_at(s: Seq<char>, i: int) -> Parsed<Seq<Seq<char>>> {
    if 0 <= i < s.len() && s[i] == '{' {
        symbols_rest(s, skip(s, i + 1))
    } else if 0 <= i < s.len() && s[i] == '"' {
        match string_at(s, i) {
            Ok((t, e)) => if t.len() == 0 {
                Err((i, Expected::NonEmptySymbols))
            } else {
                Ok((t.map_values(|c: char| seq![c]), e))
            },
            Err(x) => Err(x),
        }
    } else {
        Err((i, Expected::Symbols))
    }
}

/// An optional label at `i`: `l` and a string.
pub open spec fn label_at(s: Seq<char>, i: int) -> Parsed<Option<Seq<char>>> {
    if 0 <= i < s.len() && s[i] == 'l' {
        match string_at(s, skip(s, i + 1)) {
            Ok((t, e)) => Ok((Some(t), skip(s, e))),
            Err(x) => Err(x),
        }
    } else {
        Ok((None, i))
    }
}

pub open spec fn starts_gear(c: char) -> bool {
    c == 'g' || c == 'c' || c == 'e'
}

/// A gear at `i`.
pub open spec fn gear_at(s: Seq<char>, i: int) -> Parsed<GearModel>
    decreases s.len() - i, 3int,
{
    if 0 <= i < s.len() && s[i] == 'g' {
        rotator_at(s, i + 1)
    } else if 0 <= i < s.len() && s[i] == 'c' {
        counter_at(s, i + 1)
    } else if 0 <= i < s.len() && s[i] == 'e' {
        match teeth_at(s, i + 1) {
            Ok((n, e)) => Ok((GearModel::Ender(n), e)),
            Err(x) => Err(x),
        }
    } else {
        Err((i, Expected::Gear))
    }
}

/// An optional follower at `i`: present where a gear starts there.
pub open spec fn follower_at(s: Seq<char>, i: int) -> Parsed<Option<Box<GearModel>>>
    decreases s.len() - i, 4int,
{
    if 0 <= i < s.len() && starts_gear(s[i]) {
        match gear_at(s, i) {
            Ok((g, e)) => Ok((Some(Box::new(g)), e)),
            Err(x) => Err(x),
        }
    } else {
        Ok((None, i))
    }
}

/// The rest of a `[...]` list of meshed gears from `i`, where a gear is due.
pub open spec fn parallel_rest(s: Seq<char>, i: int) -> Parsed<Seq<GearModel>>
    decreases s.len() - i, 4int,
{
    match gear_at(s, i) {
        Err(x) => Err(x),
        Ok((g, q)) => {
            let j = skip(s, q);
            if 0 <= j < s.len() && s[j] == ',' {
                let k = skip(s, j + 1);
                if i < k <= s.len() {
                    match parallel_rest(s, k) {
                        Ok((v, e)) => Ok((seq![g] + v, e)),
                        Err(x) => Err(x),
                    }
                } else {
                    Err((k, Expected::Gear))
                }
            } else if 0 <= j < s.len() && s[j] == ']' {
                Ok((seq![g], j + 1))
            } else {
                Err((j, Expected::CommaOrBracket))
            }
        },
    }
}

/// A rotator's body after its `g` at `p`.
pub open spec fn rotator_at(s: Seq<char>, p: int) -> Parsed<GearModel>
    decreases s.len() - p + 1, 0int,
{
    match teeth_at(s, p) {
        Err(x) => Err(x),
        Ok((n, i)) => {
            let j = skip(s, i);
            let par: Parsed<Seq<GearModel>> = if 0 <= j < s.len() && s[j] == '[' {
                let k = skip(s, j + 1);
                if p <= j < k <= s.len() {
                    match parallel_rest(s, k) {
                        Ok((v, e)) => Ok((v, skip(s, e))),
                        Err(x) => Err(x),
                    }
                } else {
                    Err((k, Expected::Gear))
                }
            } else {
                Ok((Seq::empty(), j))
            };
            match par {
                Err(x) => Err(x),
                Ok((ps, k)) => if p <= k <= s.len() {
                    match follower_at(s, k) {
                        Ok((c, e)) => Ok((GearModel::Rotator(n, ps, c), e)),
                        Err(x) => Err(x),
                    }
                } else {
                    Err((k, Expected::Gear))
                },
            }
        },
    }
}

/// A counter's body after its `c` at `p`.
pub open spec fn counter_at(s: Seq<char>, p: int) -> Parsed<GearModel>
    decreases s.len() - p + 1, 0int,
{
    match teeth_at(s, p) {
        Err(x) => Err(x),
        Ok((n, i)) => match symbols_at(s, skip(s, i)) {
            Err(x) => Err(x),
            Ok((syms, j)) => match label_at(s, skip(s, j)) {
                Err(x) => Err(x),
                Ok((l, k)) => if p <= k <= s.len() {
                    match follower_at(s, k) {
                        Ok((c, e)) => Ok((GearModel::Counter(n, l, syms, c), e)),
                        Err(x) => Err(x),
                    }
                } else {
                    Err((k, Expected::Gear))
                },
            },
        },
    }
}

/// A whole description: one gear, with whitespace and comments around it.
pub open spec fn description(s: Seq<char>) -> Parsed<GearModel> {
    match gear_at(s, skip(s, 0)) {
        Err(x) => Err(x),
        Ok((g, e)) => {
            let j = skip(s, e);
            if j == s.len() {
                Ok((g, j))
            } else {
                Err((j, Expected::End))
            }
        },
    }
}

} // verus!
