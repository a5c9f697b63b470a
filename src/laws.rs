use vstd::prelude::*;
use vstd::arithmetic::div_mod::lemma_mod_add_multiples_vanish;
use crate::gears::{Gear, emits, emits_all, stops, stops_any, wf, wf_all};
use crate::aggregate::{has_key, is_aggregation};
use crate::order::{lemma_lex_irreflexive, lemma_lex_transitive, lex_lt};
use crate::rotation::{fires, lemma_own_rot_ratio, neg, own_rot, same_value, symbol_index};

verus! {

/// A follower with `t1` teeth behind a genesis gear with `t0` teeth, driven
/// by `r` through one tooth, turns by `r * (t0 / 1 / t1) * -1` after the
/// genesis gear's own `r * (1 / t0) * -1`: that is, by `r / t1`.
pub proof fn follower_ratio(r: (int, int), t0: int, t1: int)
    requires
        r.1 > 0,
        t0 > 0,
        t1 > 0,
    ensures
        same_value(own_rot(own_rot(r, 1, t0), t0, t1), (-(-r.0 * 1) * t0, r.1 * t0 * t1)),
        same_value(own_rot(own_rot(r, 1, t0), t0, t1), (r.0, r.1 * t1)),
{
    let g = own_rot(r, 1, t0);
    lemma_own_rot_ratio(r, 1, t0);
    lemma_own_rot_ratio(g, t0, t1);
    let f = own_rot(g, t0, t1);
    assert(g.0 * (r.1 * t0) == -r.0 * g.1);
    assert(f.0 * (g.1 * t1) == (-g.0 * t0) * f.1);
    assert(g.1 > 0 && f.1 > 0);
    assert(f.0 * (r.1 * t0 * t1) == (-(-r.0 * 1) * t0) * f.1) by (nonlinear_arith)
        requires
            g.0 * (r.1 * t0) == -r.0 * g.1,
            f.0 * (g.1 * t1) == (-g.0 * t0) * f.1,
            g.1 > 0,
            t1 > 0,
    ;
    assert(f.0 * (r.1 * t1) == r.0 * f.1) by (nonlinear_arith)
        requires
            f.0 * (r.1 * t0 * t1) == (-(-r.0 * 1) * t0) * f.1,
            t0 > 0,
    ;
}

proof fn lemma_emits_all_concat(a: Seq<Gear>, b: Seq<Gear>, r: (int, int), t: int)
    ensures
        emits_all(a + b, r, t) == emits_all(a, r, t) + emits_all(b, r, t),
        stops_any(a + b, r, t) == (stops_any(a, r, t) || stops_any(b, r, t)),
    decreases b.len(),
{
    if b.len() == 0 {
        assert(a + b =~= a);
        assert(emits_all(a, r, t) + emits_all(b, r, t) =~= emits_all(a, r, t));
    } else {
        let b0 = b.subrange(0, b.len() - 1);
        lemma_emits_all_concat(a, b0, r, t);
        assert((a + b).subrange(0, (a + b).len() - 1) =~= a + b0);
        assert((a + b)[(a + b).len() - 1] == b[b.len() - 1]);
        assert(emits_all(a + b, r, t) =~= emits_all(a, r, t) + emits_all(b, r, t));
    }
}

/// Every gear meshed against a rotator is driven by minus the rotator's own
/// rotation through the rotator's teeth, and what it shows and whether it
/// stops are what it would show and do as the rotator's only meshed gear:
/// the other meshed gears do not change it.
pub proof fn parallel_independence(g: Gear, r: (int, int), in_teeth: int, i: int)
    requires
        g is Rotator,
        0 <= i < g->Rotator_0.parrarel@.len(),
    ensures
        ({
            let ng = g->Rotator_0;
            let ps = ng.parrarel@;
            let x = neg(own_rot(r, in_teeth, ng.n as int));
            &&& emits_all(ps, x, ng.n as int) == emits_all(ps.subrange(0, i), x, ng.n as int)
                + emits_all(seq![ps[i]], x, ng.n as int) + emits_all(
                ps.subrange(i + 1, ps.len() as int),
                x,
                ng.n as int,
            )
            &&& emits_all(seq![ps[i]], x, ng.n as int) == emits(ps[i], x, ng.n as int)
            &&& stops_any(ps, x, ng.n as int) == (stops_any(ps.subrange(0, i), x, ng.n as int)
                || stops_any(seq![ps[i]], x, ng.n as int) || stops_any(
                ps.subrange(i + 1, ps.len() as int),
                x,
                ng.n as int,
            ))
            &&& stops_any(seq![ps[i]], x, ng.n as int) == stops(ps[i], x, ng.n as int)
        }),
{
    let ng = g->Rotator_0;
    let ps = ng.parrarel@;
    let x = neg(own_rot(r, in_teeth, ng.n as int));
    let t = ng.n as int;
    let a = ps.subrange(0, i);
    let s = seq![ps[i]];
    let c = ps.subrange(i + 1, ps.len() as int);
    assert(ps =~= a + s + c);
    lemma_emits_all_concat(a + s, c, x, t);
    lemma_emits_all_concat(a, s, x, t);
    assert(s.subrange(0, 0) =~= Seq::<Gear>::empty());
    assert(s[0] == ps[i]);
    assert(emits_all(s.subrange(0, 0), x, t) + emits(ps[i], x, t) =~= emits(ps[i], x, t));
    assert(!stops_any(s.subrange(0, 0), x, t));
}

/// A counter turned by `r` and by `r + 1` (one more full revolution) shows
/// the same symbol.
pub proof fn symbol_periodic(r: (int, int), k: int)
    requires
        r.1 > 0,
        k > 0,
    ensures
        symbol_index((r.0 + r.1, r.1), k) == symbol_index(r, k),
{
    lemma_mod_add_multiples_vanish(r.0, r.1);
}

/// `b` lies as far from zero as `a` or further, on the same side.
pub open spec fn further(a: int, b: int) -> bool {
    (0 <= a <= b) || (b <= a <= 0)
}

/// An ender that has made a full revolution still has when it turns further
/// the same way.
pub proof fn ender_fires_further(a: int, b: int, den: int)
    requires
        fires((a, den)),
        further(a, b),
    ensures
        fires((b, den)),
{
}

proof fn lemma_further_scale(a: int, b: int, c: int)
    requires
        further(a, b),
        c > 0,
    ensures
        further(-a * c, -b * c),
        further(a * c, b * c),
{
    assert(-a * c == -(a * c) && -b * c == -(b * c)) by (nonlinear_arith);
    if 0 <= a && a <= b {
        assert(0 <= a * c <= b * c) by (nonlinear_arith)
            requires
                0 <= a <= b,
                c > 0,
        ;
    } else {
        assert(b * c <= a * c <= 0) by (nonlinear_arith)
            requires
                b <= a <= 0,
                c > 0,
        ;
    }
}

proof fn lemma_own_rot_further(r1: (int, int), r2: (int, int), it: int, t: int)
    requires
        r1.1 == r2.1,
        further(r1.0, r2.0),
        it > 0,
    ensures
        own_rot(r1, it, t).1 == own_rot(r2, it, t).1,
        further(own_rot(r1, it, t).0, own_rot(r2, it, t).0),
        further(neg(own_rot(r1, it, t)).0, neg(own_rot(r2, it, t)).0),
{
    lemma_further_scale(r1.0, r2.0, it);
    lemma_further_scale(r1.0, r2.0, 1);
}

proof fn lemma_stops_further(g: Gear, r1: (int, int), r2: (int, int), it: int)
    requires
        r1.1 == r2.1,
        further(r1.0, r2.0),
        it > 0,
        wf(g),
        stops(g, r1, it),
    ensures
        stops(g, r2, it),
    decreases g, 0int,
{
    let t = g.teeth();
    lemma_own_rot_further(r1, r2, it, t);
    let o1 = own_rot(r1, it, t);
    let o2 = own_rot(r2, it, t);
    match g {
        Gear::Rotator(ng) => {
            if stops_any(ng.parrarel@, neg(o1), t) {
                assert(decreases_to!(g => ng.parrarel@));
                lemma_stops_any_further(ng.parrarel@, neg(o1), neg(o2), t);
            } else {
                match ng.child {
                    Some(c) => {
                        lemma_stops_further(*c, o1, o2, t);
                    },
                    None => {},
                }
            }
        },
        Gear::Counter(cg) => {
            match cg.child {
                Some(c) => {
                    lemma_stops_further(*c, o1, o2, t);
                },
                None => {},
            }
        },
        Gear::Ender(_) => {},
    }
}

proof fn lemma_stops_any_further(ps: Seq<Gear>, r1: (int, int), r2: (int, int), it: int)
    requires
        r1.1 == r2.1,
        further(r1.0, r2.0),
        it > 0,
        wf_all(ps),
        stops_any(ps, r1, it),
    ensures
        stops_any(ps, r2, it),
    decreases ps, 0int,
{
    if ps.len() > 0 {
        let front = ps.subrange(0, ps.len() - 1);
        if stops_any(front, r1, it) {
            lemma_stops_any_further(front, r1, r2, it);
        } else {
            lemma_stops_further(ps[ps.len() - 1], r1, r2, it);
        }
    }
}

/// Once some ender fires with the train driven by `n1 / den`, it still fires
/// when the drive has moved on to `n2 / den` further in the same direction.
pub proof fn termination_stays(g: Gear, n1: int, n2: int, den: int)
    requires
        wf(g),
        den > 0,
        further(n1, n2),
        stops(g, (n1, den), 1),
    ensures
        stops(g, (n2, den), 1),
{
    lemma_stops_further(g, (n1, den), (n2, den), 1);
}

proof fn lemma_sorted_everywhere(a: Seq<(Seq<char>, Seq<char>)>)
    requires
        forall|k: int| 0 <= k < a.len() - 1 ==> lex_lt(#[trigger] a[k].0, a[k + 1].0),
    ensures
        forall|i: int, j: int| 0 <= i < j < a.len() ==> lex_lt(a[i].0, a[j].0),
{
    assert forall|i: int, j: int| 0 <= i < j < a.len() implies lex_lt(a[i].0, a[j].0) by {
        lemma_sorted_from(a, i, j);
    }
}

proof fn lemma_sorted_from(a: Seq<(Seq<char>, Seq<char>)>, i: int, j: int)
    requires
        forall|k: int| 0 <= k < a.len() - 1 ==> lex_lt(#[trigger] a[k].0, a[k + 1].0),
        0 <= i < j < a.len(),
    ensures
        lex_lt(a[i].0, a[j].0),
    decreases j - i,
{
    if j > i + 1 {
        lemma_sorted_from(a, i, j - 1);
        assert(lex_lt(a[j - 1].0, a[j].0));
        lemma_lex_transitive(a[i].0, a[j - 1].0, a[j].0);
    }
}

/// Two label-sorted entry lists with the same labels have them at the same places.
proof fn lemma_same_keys(a: Seq<(Seq<char>, Seq<char>)>, b: Seq<(Seq<char>, Seq<char>)>)
    requires
        forall|i: int, j: int| 0 <= i < j < a.len() ==> lex_lt(a[i].0, a[j].0),
        forall|i: int, j: int| 0 <= i < j < b.len() ==> lex_lt(b[i].0, b[j].0),
        forall|l: Seq<char>| has_key(a, l) <==> has_key(b, l),
    ensures
        a.len() == b.len(),
        forall|k: int| 0 <= k < a.len() ==> a[k].0 == b[k].0,
    decreases a.len(),
{
    if a.len() == 0 {
        if b.len() > 0 {
            assert(has_key(b, b[0].0));
        }
    } else {
        if b.len() == 0 {
            assert(has_key(a, a[0].0));
        }
        assert(has_key(a, a[0].0));
        assert(has_key(b, b[0].0));
        let i = choose|i: int| 0 <= i < a.len() && a[i].0 == b[0].0;
        let j = choose|j: int| 0 <= j < b.len() && b[j].0 == a[0].0;
        if i > 0 && j > 0 {
            assert(lex_lt(a[0].0, a[i].0));
            assert(lex_lt(b[0].0, b[j].0));
            lemma_lex_transitive(a[0].0, b[0].0, a[0].0);
            lemma_lex_irreflexive(a[0].0);
        } else if i > 0 {
            assert(lex_lt(a[0].0, a[i].0));
        } else if j > 0 {
            assert(lex_lt(b[0].0, b[j].0));
        }
        assert(a[0].0 == b[0].0);
        let a1 = a.subrange(1, a.len() as int);
        let b1 = b.subrange(1, b.len() as int);
        assert forall|l: Seq<char>| has_key(a1, l) <==> has_key(b1, l) by {
            if has_key(a1, l) {
                let k = choose|k: int| 0 <= k < a1.len() && a1[k].0 == l;
                assert(a[k + 1].0 == l);
                assert(has_key(a, l));
                let m = choose|m: int| 0 <= m < b.len() && b[m].0 == l;
                if m == 0 {
                    assert(lex_lt(a[0].0, a[k + 1].0));
                    lemma_lex_irreflexive(l);
                }
                assert(b1[m - 1].0 == l);
            }
            if has_key(b1, l) {
                let k = choose|k: int| 0 <= k < b1.len() && b1[k].0 == l;
                assert(b[k + 1].0 == l);
                assert(has_key(b, l));
                let m = choose|m: int| 0 <= m < a.len() && a[m].0 == l;
                if m == 0 {
                    assert(lex_lt(b[0].0, b[k + 1].0));
                    lemma_lex_irreflexive(l);
                }
                assert(a1[m - 1].0 == l);
            }
        }
        assert forall|x: int, y: int| 0 <= x < y < a1.len() implies lex_lt(a1[x].0, a1[y].0) by {
            assert(a1[x] == a[x + 1] && a1[y] == a[y + 1]);
        }
        assert forall|x: int, y: int| 0 <= x < y < b1.len() implies lex_lt(b1[x].0, b1[y].0) by {
            assert(b1[x] == b[x + 1] && b1[y] == b[y + 1]);
        }
        lemma_same_keys(a1, b1);
        assert forall|k: int| 0 <= k < a.len() implies a[k].0 == b[k].0 by {
            if k > 0 {
                assert(a1[k - 1] == a[k] && b1[k - 1] == b[k]);
            }
        }
    }
}

/// What counters show in a step determines its aggregation completely: two
/// aggregations of the same showings hold the same labels in the same order,
/// each with the same symbols. So two steps of one train with one driving
/// rotation give identical frames.
pub proof fn aggregation_determinism(
    a: Seq<(Seq<char>, Seq<char>)>,
    b: Seq<(Seq<char>, Seq<char>)>,
    es: Seq<(Seq<char>, Seq<char>)>,
)
    requires
        is_aggregation(a, es),
        is_aggregation(b, es),
    ensures
        a == b,
{
    lemma_sorted_everywhere(a);
    lemma_sorted_everywhere(b);
    assert forall|l: Seq<char>| has_key(a, l) <==> has_key(b, l) by {
        if has_key(a, l) {
            let k = choose|k: int| 0 <= k < a.len() && a[k].0 == l;
            assert(has_key(es, a[k].0));
            let i = choose|i: int| 0 <= i < es.len() && es[i].0 == l;
            assert(has_key(b, es[i].0));
        }
        if has_key(b, l) {
            let k = choose|k: int| 0 <= k < b.len() && b[k].0 == l;
            assert(has_key(es, b[k].0));
            let i = choose|i: int| 0 <= i < es.len() && es[i].0 == l;
            assert(has_key(a, es[i].0));
        }
    }
    lemma_same_keys(a, b);
    assert(a =~= b);
}

} // verus!
