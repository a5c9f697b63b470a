use vstd::prelude::*;
use crate::gears::{Emission, emission_view};
use crate::order::{lex_less, lex_lt, lemma_lex_total};

verus! {

/// Everything shown under label `l` in `es`, concatenated in order.
pub open spec fn collect(es: Seq<(Seq<char>, Seq<char>)>, l: Seq<char>) -> Seq<char>
    decreases es.len(),
{
    if es.len() == 0 {
        Seq::empty()
    } else {
        let e = es[es.len() - 1];
        collect(es.subrange(0, es.len() - 1), l) + if e.0 == l {
            e.1
        } else {
            Seq::empty()
        }
    }
}

pub open spec fn has_key(r: Seq<(Seq<char>, Seq<char>)>, l: Seq<char>) -> bool {
    exists|k: int| 0 <= k < r.len() && r[k].0 == l
}

/// `r` is the aggregation of `es`: one entry per label that occurs in `es`,
/// in increasing label order, holding everything shown under that label.
pub open spec fn is_aggregation(r: Seq<(Seq<char>, Seq<char>)>, es: Seq<(Seq<char>, Seq<char>)>) -> bool {
    &&& forall|k: int| 0 <= k < r.len() - 1 ==> lex_lt(#[trigger] r[k].0, r[k + 1].0)
    &&& forall|j: int, k: int| 0 <= j < k < r.len() ==> r[j].0 != r[k].0
    &&& forall|k: int| 0 <= k < r.len() ==> has_key(es, #[trigger] r[k].0) && r[k].1 == collect(es, r[k].0)
    &&& forall|i: int| 0 <= i < es.len() ==> has_key(r, #[trigger] es[i].0)
}

proof fn lemma_collect_absent(es: Seq<(Seq<char>, Seq<char>)>, l: Seq<char>)
    requires
        !has_key(es, l),
    ensures
        collect(es, l) == Seq::<char>::empty(),
    decreases es.len(),
{
    if es.len() > 0 {
        let p = es.subrange(0, es.len() - 1);
        assert(!has_key(p, l)) by {
            if has_key(p, l) {
                let k = choose|k: int| 0 <= k < p.len() && p[k].0 == l;
                assert(es[k].0 == l);
            }
        }
        lemma_collect_absent(p, l);
    }
}

proof fn lemma_collect_push(pre: Seq<(Seq<char>, Seq<char>)>, e: (Seq<char>, Seq<char>), l: Seq<char>)
    ensures
        collect(pre.push(e), l) == collect(pre, l) + if e.0 == l {
            e.1
        } else {
            Seq::empty()
        },
{
    assert(pre.push(e).subrange(0, pre.len() as int) =~= pre);
}

proof fn lemma_keys_push(pre: Seq<(Seq<char>, Seq<char>)>, e: (Seq<char>, Seq<char>))
    ensures
        forall|l: Seq<char>| has_key(pre, l) ==> has_key(pre.push(e), l),
        has_key(pre.push(e), e.0),
{
    let post = pre.push(e);
    assert forall|l: Seq<char>| has_key(pre, l) implies has_key(post, l) by {
        let k = choose|k: int| 0 <= k < pre.len() && pre[k].0 == l;
        assert(post[k] == pre[k]);
    }
    assert(post[pre.len() as int].0 == e.0);
}

/// Adding one more shown symbol under a label that already has an entry.
proof fn lemma_step_existing(
    rv: Seq<(Seq<char>, Seq<char>)>,
    pre: Seq<(Seq<char>, Seq<char>)>,
    e: (Seq<char>, Seq<char>),
    j: int,
)
    requires
        is_aggregation(rv, pre),
        0 <= j < rv.len(),
        rv[j].0 == e.0,
    ensures
        is_aggregation(rv.update(j, (e.0, rv[j].1 + e.1)), pre.push(e)),
{
    let post = pre.push(e);
    let nv = rv.update(j, (e.0, rv[j].1 + e.1));
    lemma_keys_push(pre, e);
    assert forall|i2: int| 0 <= i2 < post.len() implies has_key(nv, #[trigger] post[i2].0) by {
        if i2 < pre.len() {
            assert(post[i2] == pre[i2]);
            let k = choose|k: int| 0 <= k < rv.len() && rv[k].0 == pre[i2].0;
            assert(nv[k].0 == rv[k].0);
        } else {
            assert(nv[j].0 == e.0);
        }
    }
    assert forall|k: int| 0 <= k < nv.len() implies has_key(post, #[trigger] nv[k].0) && nv[k].1
        == collect(post, nv[k].0) by {
        assert(nv[k].0 == rv[k].0);
        lemma_collect_push(pre, e, rv[k].0);
        if k != j {
            assert(rv[k].0 != e.0);
            assert(collect(pre, rv[k].0) + Seq::<char>::empty() =~= collect(pre, rv[k].0));
        }
    }
    assert forall|k: int| 0 <= k < nv.len() - 1 implies lex_lt(#[trigger] nv[k].0, nv[k + 1].0) by {
        assert(nv[k].0 == rv[k].0);
        assert(nv[k + 1].0 == rv[k + 1].0);
    }
    assert forall|a: int, b: int| 0 <= a < b < nv.len() implies nv[a].0 != nv[b].0 by {
        assert(nv[a].0 == rv[a].0);
        assert(nv[b].0 == rv[b].0);
    }
}

/// Adding one more shown symbol under a new label, placed at `p`.
proof fn lemma_step_new(
    rv: Seq<(Seq<char>, Seq<char>)>,
    pre: Seq<(Seq<char>, Seq<char>)>,
    e: (Seq<char>, Seq<char>),
    p: int,
)
    requires
        is_aggregation(rv, pre),
        0 <= p <= rv.len(),
        !has_key(rv, e.0),
        p > 0 ==> !lex_lt(e.0, rv[p - 1].0),
        p < rv.len() ==> lex_lt(e.0, rv[p].0),
    ensures
        is_aggregation(rv.insert(p, e), pre.push(e)),
{
    let post = pre.push(e);
    let nv = rv.insert(p, e);
    lemma_keys_push(pre, e);
    assert(!has_key(pre, e.0)) by {
        if has_key(pre, e.0) {
            let i2 = choose|i2: int| 0 <= i2 < pre.len() && pre[i2].0 == e.0;
            assert(has_key(rv, pre[i2].0));
        }
    }
    lemma_collect_absent(pre, e.0);
    lemma_collect_push(pre, e, e.0);
    assert(collect(pre, e.0) + e.1 =~= e.1);
    assert(nv.len() == rv.len() + 1);
    assert(forall|k: int| 0 <= k < p ==> nv[k] == rv[k]);
    assert(nv[p] == e);
    assert(forall|k: int| p < k < nv.len() ==> nv[k] == rv[k - 1]);
    if p > 0 {
        assert(rv[p - 1].0 != e.0);
        lemma_lex_total(rv[p - 1].0, e.0);
    }
    assert forall|k: int| 0 <= k < nv.len() - 1 implies lex_lt(#[trigger] nv[k].0, nv[k + 1].0) by {
        if k + 1 < p {
        } else if k + 1 == p {
        } else if k == p {
        } else {
            assert(nv[k].0 == rv[k - 1].0);
            assert(nv[k + 1].0 == rv[k].0);
        }
    }
    assert forall|a: int, b: int| 0 <= a < b < nv.len() implies nv[a].0 != nv[b].0 by {
        if b < p {
        } else if a < p && b == p {
        } else if a < p {
            assert(nv[b] == rv[b - 1]);
        } else if a == p {
            assert(nv[b] == rv[b - 1]);
        } else {
            assert(nv[a] == rv[a - 1]);
            assert(nv[b] == rv[b - 1]);
        }
    }
    assert forall|k: int| 0 <= k < nv.len() implies has_key(post, #[trigger] nv[k].0) && nv[k].1
        == collect(post, nv[k].0) by {
        if k != p {
            let k0 = if k < p {
                k
            } else {
                k - 1
            };
            assert(nv[k] == rv[k0]);
            assert(rv[k0].0 != e.0);
            lemma_collect_push(pre, e, rv[k0].0);
            assert(collect(pre, rv[k0].0) + Seq::<char>::empty() =~= collect(pre, rv[k0].0));
        }
    }
    assert forall|i2: int| 0 <= i2 < post.len() implies has_key(nv, #[trigger] post[i2].0) by {
        if i2 < pre.len() {
            assert(post[i2] == pre[i2]);
            let k = choose|k: int| 0 <= k < rv.len() && rv[k].0 == pre[i2].0;
            if k < p {
                assert(nv[k] == rv[k]);
            } else {
                assert(nv[k + 1] == rv[k]);
            }
        } else {
            assert(nv[p].0 == e.0);
        }
    }
}

/// The index of the entry labelled `l`, or `r.len()` where there is none.
fn find_label(r: &Vec<Emission>, l: &String) -> (j: usize)
    ensures
        j <= r.len(),
        j < r.len() ==> r@[j as int].0@ == l@,
        j == r.len() ==> !has_key(emission_view(r@), l@),
{
    let mut j: usize = 0;
    while j < r.len()
        invariant
            j <= r.len(),
            forall|k: int| 0 <= k < j ==> r@[k].0@ != l@,
        decreases r.len() - j,
    {
        if r[j].0 == *l {
            return j;
        }
        j = j + 1;
    }
    proof {
        let rv = emission_view(r@);
        if has_key(rv, l@) {
            let k = choose|k: int| 0 <= k < rv.len() && rv[k].0 == l@;
            assert(rv[k].0 == r@[k].0@);
        }
    }
    j
}

/// Where a new label `l` goes among the sorted entries of `r`.
fn insert_position(r: &Vec<Emission>, l: &String) -> (p: usize)
    ensures
        p <= r.len(),
        p > 0 ==> !lex_lt(l@, r@[p - 1].0@),
        p < r.len() ==> lex_lt(l@, r@[p as int].0@),
{
    let mut p: usize = 0;
    while p < r.len()
        invariant
            p <= r.len(),
            p > 0 ==> !lex_lt(l@, r@[p - 1].0@),
        decreases r.len() - p,
    {
        if lex_less(l, &r[p].0) {
            return p;
        }
        p = p + 1;
    }
    p
}

/// Groups what the counters showed by label: one entry per label, labels in
/// increasing order, each with its symbols concatenated in showing order.
pub fn aggregate(es: &Vec<Emission>) -> (r: Vec<Emission>)
    ensures
        is_aggregation(emission_view(r@), emission_view(es@)),
{
    let ghost all = emission_view(es@);
    let mut r: Vec<Emission> = Vec::new();
    let mut i: usize = 0;
    while i < es.len()
        invariant
            all == emission_view(es@),
            i <= es.len(),
            is_aggregation(emission_view(r@), all.subrange(0, i as int)),
        decreases es.len() - i,
    {
        let ghost pre = all.subrange(0, i as int);
        let ghost rv = emission_view(r@);
        let label = &es[i].0;
        let symbol = &es[i].1;
        let ghost e = all[i as int];
        assert(e == (label@, symbol@));
        assert(all.subrange(0, i + 1) =~= pre.push(e));
        let j = find_label(&r, label);
        if j < r.len() {
            let key = r[j].0.clone();
            let joined = r[j].1.clone().concat(symbol.as_str());
            proof {
                assert(rv[j as int].0 == e.0);
                lemma_step_existing(rv, pre, e, j as int);
            }
            r.set(j, (key, joined));
            assert(emission_view(r@) =~= rv.update(j as int, (e.0, rv[j as int].1 + e.1)));
        } else {
            let p = insert_position(&r, label);
            proof {
                if p < r.len() {
                    assert(rv[p as int].0 == r@[p as int].0@);
                }
                if p > 0 {
                    assert(rv[p - 1].0 == r@[p - 1].0@);
                }
                lemma_step_new(rv, pre, e, p as int);
            }
            r.insert(p, (label.clone(), symbol.clone()));
            assert(emission_view(r@) =~= rv.insert(p as int, e));
        }
        i = i + 1;
    }
    assert(all.subrange(0, es.len() as int) =~= all);
    r
}

} // verus!
