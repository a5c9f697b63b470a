use vstd::prelude::*;
use crate::gears::{CGear, EGear, Gear, NGear, wf, wf_all};
use crate::grammar::{
    GearModel, Parsed, counter_at, lemma_ws_end_bounds, description, follower_at, gear_at, model, model_opt,
    models, parallel_rest, rotator_at, skip, symbols_at, symbols_rest, teeth_at,
};
use crate::lexer::{Expected, SyntaxError, parse_number, parse_string, scan_string, skip_ws};

verus! {

/// An exec result matches a grammar result.
pub open spec fn agrees<M>(r: Result<(M, usize), SyntaxError>, p: Parsed<M>) -> bool {
    match r {
        Ok((m, e)) => p == Parsed::<M>::Ok((m, e as int)),
        Err(err) => p == Parsed::<M>::Err((err.offset as int, err.expected)),
    }
}

pub open spec fn gear_agrees(r: Result<(Gear, usize), SyntaxError>, p: Parsed<GearModel>) -> bool {
    match r {
        Ok((g, e)) => wf(g) && p == Parsed::<GearModel>::Ok((model(g), e as int)),
        Err(err) => p == Parsed::<GearModel>::Err((err.offset as int, err.expected)),
    }
}

pub open spec fn symbols_view(v: Seq<String>) -> Seq<Seq<char>> {
    v.map_values(|t: String| t@)
}

proof fn lemma_wf_all_push(ps: Seq<Gear>, g: Gear)
    requires
        wf_all(ps),
        wf(g),
    ensures
        wf_all(ps.push(g)),
        models(ps.push(g)) == models(ps).push(model(g)),
{
    assert(ps.push(g).subrange(0, ps.len() as int) =~= ps);
}

proof fn lemma_scan_bounds(s: Seq<char>, i: int)
    ensures
        scan_string(s, i) matches Some(r) ==> i <= r.1 < s.len(),
    decreases s.len() - i,
{
    if 0 <= i < s.len() && s[i] != '"' {
        if s[i] == '\\' {
            if i + 1 < s.len() {
                lemma_scan_bounds(s, i + 2);
            }
        } else {
            lemma_scan_bounds(s, i + 1);
        }
    }
}

/// Reads a gear description: one gear, with whitespace and comments around
/// it, and nothing else. The result is the gear that the grammar gives, or
/// the first place where the text leaves the grammar. Every gear read has at
/// least one tooth and every counter at least one symbol.
pub fn parse(s: &str) -> (r: Result<Gear, SyntaxError>)
    ensures
        match r {
            Ok(g) => wf(g) && (description(s@) matches Ok((m, _)) && m == model(g)),
            Err(e) => description(s@) == Parsed::<GearModel>::Err((e.offset as int, e.expected)),
        },
{
    let len = s.unicode_len();
    let i = skip_ws(s, len, 0);
    let (g, i) = match parse_gear(s, len, i) {
        Ok(x) => x,
        Err(e) => {
            return Err(e);
        },
    };
    let i = skip_ws(s, len, i);
    if i != len {
        return Err(SyntaxError { offset: i, expected: Expected::End });
    }
    Ok(g)
}

/// Reads one gear at `pos` and the position after it.
pub fn parse_gear(s: &str, len: usize, pos: usize) -> (r: Result<(Gear, usize), SyntaxError>)
    requires
        len == s@.len(),
        pos <= len,
    ensures
        gear_agrees(r, gear_at(s@, pos as int)),
        r matches Ok((g, e)) ==> pos < e <= len,
    decreases len - pos, 3int,
{
    if pos >= len {
        return Err(SyntaxError { offset: pos, expected: Expected::Gear });
    }
    let c = s.get_char(pos);
    if c == 'g' {
        parse_rotator(s, len, pos + 1)
    } else if c == 'c' {
        parse_counter(s, len, pos + 1)
    } else if c == 'e' {
        match parse_teeth(s, len, pos + 1) {
            Ok((n, e)) => Ok((Gear::Ender(EGear { n }), e)),
            Err(err) => Err(err),
        }
    } else {
        Err(SyntaxError { offset: pos, expected: Expected::Gear })
    }
}

/// Reads a tooth count of at least one, after whitespace.
fn parse_teeth(s: &str, len: usize, pos: usize) -> (r: Result<(u32, usize), SyntaxError>)
    requires
        len == s@.len(),
        pos <= len,
    ensures
        agrees(r, teeth_at(s@, pos as int)),
        r matches Ok((n, e)) ==> n > 0 && pos < e <= len,
{
    let i = skip_ws(s, len, pos);
    let (n, e) = match parse_number(s, len, i) {
        Ok(x) => x,
        Err(err) => {
            return Err(err);
        },
    };
    if n == 0 {
        return Err(SyntaxError { offset: i, expected: Expected::NonZeroTeeth });
    }
    Ok((n, e))
}

/// Reads an optional follower at `pos`: present where a gear starts there.
fn parse_follower(s: &str, len: usize, pos: usize) -> (r: Result<(Option<Box<Gear>>, usize), SyntaxError>)
    requires
        len == s@.len(),
        pos <= len,
    ensures
        match r {
            Ok((c, e)) => follower_at(s@, pos as int) == Parsed::<Option<Box<GearModel>>>::Ok(
                (model_opt(c), e as int),
            ) && pos <= e <= len && match c {
                Some(g) => wf(*g),
                None => true,
            },
            Err(err) => follower_at(s@, pos as int) == Parsed::<Option<Box<GearModel>>>::Err(
                (err.offset as int, err.expected),
            ),
        },
    decreases len - pos, 4int,
{
    if pos < len {
        let c = s.get_char(pos);
        if c == 'g' || c == 'c' || c == 'e' {
            return match parse_gear(s, len, pos) {
                Ok((g, e)) => Ok((Some(Box::new(g)), e)),
                Err(err) => Err(err),
            };
        }
    }
    Ok((None, pos))
}

fn parse_rotator(s: &str, len: usize, pos: usize) -> (r: Result<(Gear, usize), SyntaxError>)
    requires
        len == s@.len(),
        0 < pos <= len,
    ensures
        gear_agrees(r, rotator_at(s@, pos as int)),
        r matches Ok((g, e)) ==> pos <= e <= len,
    decreases len - pos + 1, 0int,
{
    let (n, i) = match parse_teeth(s, len, pos) {
        Ok(x) => x,
        Err(err) => {
            return Err(err);
        },
    };
    let mut i = skip_ws(s, len, i);
    let mut ps: Vec<Gear> = Vec::new();
    assert(wf_all(ps@));
    assert(models(ps@) =~= Seq::empty());
    if i < len && s.get_char(i) == '[' {
        proof {
            lemma_ws_end_bounds(s@, i + 1, false);
        }
        match parse_parallel(s, len, i) {
            Ok((v, e)) => {
                ps = v;
                i = skip_ws(s, len, e);
            },
            Err(err) => {
                return Err(err);
            },
        }
    }
    let (child, e) = match parse_follower(s, len, i) {
        Ok(x) => x,
        Err(err) => {
            return Err(err);
        },
    };
    let g = Gear::Rotator(NGear { n, parrarel: ps, child });
    assert(wf(g));
    Ok((g, e))
}

/// Reads `[ gear , gear ... ]` at `pos`: one or more meshed gears.
fn parse_parallel(s: &str, len: usize, pos: usize) -> (r: Result<(Vec<Gear>, usize), SyntaxError>)
    requires
        len == s@.len(),
        pos < len,
        s@[pos as int] == '[',
    ensures
        match r {
            Ok((ps, e)) => parallel_rest(s@, skip(s@, pos + 1)) == Parsed::<Seq<GearModel>>::Ok(
                (models(ps@), e as int),
            ) && wf_all(ps@) && pos < e <= len,
            Err(err) => parallel_rest(s@, skip(s@, pos + 1)) == Parsed::<Seq<GearModel>>::Err(
                (err.offset as int, err.expected),
            ),
        },
    decreases len - pos, 5int,
{
    let mut ps: Vec<Gear> = Vec::new();
    let mut i = skip_ws(s, len, pos + 1);
    let ghost whole = parallel_rest(s@, i as int);
    assert(models(ps@) =~= Seq::empty());
    loop
        invariant
            len == s@.len(),
            pos < i <= len,
            wf_all(ps@),
            whole == parallel_rest(s@, skip(s@, pos + 1)),
            whole == match parallel_rest(s@, i as int) {
                Ok((v, e)) => Parsed::<Seq<GearModel>>::Ok((models(ps@) + v, e)),
                Err(x) => Err(x),
            },
        decreases len - i,
    {
        let (g, e) = match parse_gear(s, len, i) {
            Ok(x) => x,
            Err(err) => {
                return Err(err);
            },
        };
        let ghost old_models = models(ps@);
        proof {
            lemma_wf_all_push(ps@, g);
        }
        ps.push(g);
        let j = skip_ws(s, len, e);
        if j < len && s.get_char(j) == ',' {
            let k = skip_ws(s, len, j + 1);
            proof {
                match parallel_rest(s@, k as int) {
                    Ok((v, e2)) => {
                        assert(old_models + (seq![model(g)] + v) =~= models(ps@) + v);
                    },
                    Err(_) => {},
                }
            }
            i = k;
        } else if j < len && s.get_char(j) == ']' {
            assert(old_models + seq![model(g)] =~= models(ps@));
            return Ok((ps, j + 1));
        } else {
            return Err(SyntaxError { offset: j, expected: Expected::CommaOrBracket });
        }
    }
}

/// Reads `{ "a" , "b" ... }` at `pos`: one symbol per quoted string.
pub fn parse_symbol_list(s: &str, len: usize, pos: usize) -> (r: Result<(Vec<String>, usize), SyntaxError>)
    requires
        len == s@.len(),
        pos < len,
        s@[pos as int] == '{',
    ensures
        match r {
            Ok((v, e)) => symbols_rest(s@, skip(s@, pos + 1)) == Parsed::<Seq<Seq<char>>>::Ok(
                (symbols_view(v@), e as int),
            ) && v.len() > 0 && pos < e <= len,
            Err(err) => symbols_rest(s@, skip(s@, pos + 1)) == Parsed::<Seq<Seq<char>>>::Err(
                (err.offset as int, err.expected),
            ),
        },
{
    let mut v: Vec<String> = Vec::new();
    let mut i = skip_ws(s, len, pos + 1);
    let ghost whole = symbols_rest(s@, i as int);
    assert(symbols_view(v@) =~= Seq::empty());
    loop
        invariant
            len == s@.len(),
            pos < i <= len,
            whole == symbols_rest(s@, skip(s@, pos + 1)),
            whole == match symbols_rest(s@, i as int) {
                Ok((w, e)) => Parsed::<Seq<Seq<char>>>::Ok((symbols_view(v@) + w, e)),
                Err(x) => Err(x),
            },
        decreases len - i,
    {
        if i >= len || s.get_char(i) != '"' {
            return Err(SyntaxError { offset: i, expected: Expected::Str });
        }
        let (t, e) = match parse_string(s, len, i) {
            Ok(x) => x,
            Err(err) => {
                return Err(err);
            },
        };
        proof {
            lemma_scan_bounds(s@, i + 1);
        }
        let ghost old_view = symbols_view(v@);
        let ghost tv = t@;
        v.push(t);
        assert(symbols_view(v@) =~= old_view.push(tv));
        let j = skip_ws(s, len, e);
        if j < len && s.get_char(j) == ',' {
            let k = skip_ws(s, len, j + 1);
            proof {
                match symbols_rest(s@, k as int) {
                    Ok((w, e2)) => {
                        assert(old_view + (seq![tv] + w) =~= symbols_view(v@) + w);
                    },
                    Err(_) => {},
                }
            }
            i = k;
        } else if j < len && s.get_char(j) == '}' {
            assert(old_view + seq![tv] =~= symbols_view(v@));
            return Ok((v, j + 1));
        } else {
            return Err(SyntaxError { offset: j, expected: Expected::CommaOrBrace });
        }
    }
}

/// Reads the symbols of a counter at `pos`: a `{...}` list, or a string
/// each of whose characters is a symbol.
fn parse_symbols(s: &str, len: usize, pos: usize) -> (r: Result<(Vec<String>, usize), SyntaxError>)
    requires
        len == s@.len(),
        pos <= len,
    ensures
        match r {
            Ok((v, e)) => symbols_at(s@, pos as int) == Parsed::<Seq<Seq<char>>>::Ok(
                (symbols_view(v@), e as int),
            ) && v.len() > 0 && pos < e <= len,
            Err(err) => symbols_at(s@, pos as int) == Parsed::<Seq<Seq<char>>>::Err(
                (err.offset as int, err.expected),
            ),
        },
{
    if pos < len && s.get_char(pos) == '{' {
        return parse_symbol_list(s, len, pos);
    }
    if pos >= len || s.get_char(pos) != '"' {
        return Err(SyntaxError { offset: pos, expected: Expected::Symbols });
    }
    let (t, e) = match parse_string(s, len, pos) {
        Ok(x) => x,
        Err(err) => {
            return Err(err);
        },
    };
    proof {
        lemma_scan_bounds(s@, pos + 1);
    }
    let ts = t.as_str();
    let n = ts.unicode_len();
    if n == 0 {
        return Err(SyntaxError { offset: pos, expected: Expected::NonEmptySymbols });
    }
    let mut v: Vec<String> = Vec::new();
    let mut k: usize = 0;
    while k < n
        invariant
            n == t@.len(),
            ts@ == t@,
            k <= n,
            v.len() == k,
            forall|j: int| 0 <= j < k ==> #[trigger] v@[j]@ == seq![t@[j]],
        decreases n - k,
    {
        let piece = ts.substring_char(k, k + 1);
        let one = String::from_str(piece);
        assert(one@ =~= seq![t@[k as int]]);
        v.push(one);
        k = k + 1;
    }
    assert(symbols_view(v@) =~= t@.map_values(|c: char| seq![c]));
    Ok((v, e))
}

fn parse_counter(s: &str, len: usize, pos: usize) -> (r: Result<(Gear, usize), SyntaxError>)
    requires
        len == s@.len(),
        0 < pos <= len,
    ensures
        gear_agrees(r, counter_at(s@, pos as int)),
        r matches Ok((g, e)) ==> pos <= e <= len,
    decreases len - pos + 1, 0int,
{
    let (n, i) = match parse_teeth(s, len, pos) {
        Ok(x) => x,
        Err(err) => {
            return Err(err);
        },
    };
    let i = skip_ws(s, len, i);
    let (symbols, i) = match parse_symbols(s, len, i) {
        Ok(x) => x,
        Err(err) => {
            return Err(err);
        },
    };
    let mut i = skip_ws(s, len, i);
    let mut label: Option<String> = None;
    if i < len && s.get_char(i) == 'l' {
        let j = skip_ws(s, len, i + 1);
        if j >= len || s.get_char(j) != '"' {
            return Err(SyntaxError { offset: j, expected: Expected::Str });
        }
        match parse_string(s, len, j) {
            Ok((l, e)) => {
                proof {
                    lemma_scan_bounds(s@, j + 1);
                }
                label = Some(l);
                i = skip_ws(s, len, e);
            },
            Err(err) => {
                return Err(err);
            },
        }
    }
    let (child, e) = match parse_follower(s, len, i) {
        Ok(x) => x,
        Err(err) => {
            return Err(err);
        },
    };
    let g = Gear::Counter(CGear { n, label, symbols, child });
    assert(wf(g));
    Ok((g, e))
}

} // verus!
