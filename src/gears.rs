use vstd::prelude::*;
use crate::rotation::{
    Rot, fires, in_train, is_done, lemma_own_rot_in_train, neg, own_rot, select, self_rot,
    symbol_index,
};

verus! {

/// A node of a gear train.
pub enum Gear {
    Rotator(NGear),
    Counter(CGear),
    Ender(EGear),
}

/// A gear that only passes rotation on, to gears meshed against it and to a follower.
pub struct NGear {
    pub n: u32,
    pub parrarel: Vec<Gear>,
    pub child: Option<Box<Gear>>,
}

/// A gear that shows one of its symbols, picked by its rotation, under a label.
pub struct CGear {
    pub n: u32,
    pub label: Option<String>,
    pub symbols: Vec<String>,
    pub child: Option<Box<Gear>>,
}

/// A gear that ends the animation once it has made a full revolution.
pub struct EGear {
    pub n: u32,
}

/// What a counter shows in one step: its label (empty where it has none) and a symbol.
pub type Emission = (String, String);

pub open spec fn emission_view(s: Seq<Emission>) -> Seq<(Seq<char>, Seq<char>)> {
    s.map_values(|e: Emission| (e.0@, e.1@))
}

pub open spec fn label_key(label: Option<String>) -> Seq<char> {
    match label {
        Some(l) => l@,
        None => Seq::empty(),
    }
}

impl Gear {
    pub open spec fn teeth(self) -> int {
        match self {
            Gear::Rotator(g) => g.n as int,
            Gear::Counter(g) => g.n as int,
            Gear::Ender(g) => g.n as int,
        }
    }

    pub open spec fn child(self) -> Option<Box<Gear>> {
        match self {
            Gear::Rotator(g) => g.child,
            Gear::Counter(g) => g.child,
            Gear::Ender(_) => None,
        }
    }
}

/// Every gear has at least one tooth and every counter at least one symbol.
pub open spec fn wf(g: Gear) -> bool
    decreases g,
{
    &&& g.teeth() > 0
    &&& match g {
        Gear::Rotator(ng) => {
            &&& wf_all(ng.parrarel@)
            &&& match ng.child {
                Some(c) => wf(*c),
                None => true,
            }
        },
        Gear::Counter(cg) => {
            &&& cg.symbols.len() > 0
            &&& match cg.child {
                Some(c) => wf(*c),
                None => true,
            }
        },
        Gear::Ender(_) => true,
    }
}

pub open spec fn wf_all(ps: Seq<Gear>) -> bool
    decreases ps,
{
    if ps.len() == 0 {
        true
    } else {
        wf_all(ps.subrange(0, ps.len() - 1)) && wf(ps[ps.len() - 1])
    }
}

/// The labelled symbols that `g` shows, in visiting order, when its driver
/// with `in_teeth` teeth turns by `r`.
pub open spec fn emits(g: Gear, r: (int, int), in_teeth: int) -> Seq<(Seq<char>, Seq<char>)>
    decreases g,
{
    let own = own_rot(r, in_teeth, g.teeth());
    match g {
        Gear::Rotator(ng) => emits_all(ng.parrarel@, neg(own), ng.n as int) + match ng.child {
            Some(c) => emits(*c, own, ng.n as int),
            None => Seq::empty(),
        },
        Gear::Counter(cg) => seq![
            (label_key(cg.label), cg.symbols@[symbol_index(own, cg.symbols.len() as int)]@),
        ] + match cg.child {
            Some(c) => emits(*c, own, cg.n as int),
            None => Seq::empty(),
        },
        Gear::Ender(_) => Seq::empty(),
    }
}

pub open spec fn emits_all(ps: Seq<Gear>, r: (int, int), in_teeth: int) -> Seq<
    (Seq<char>, Seq<char>),
>
    decreases ps,
{
    if ps.len() == 0 {
        Seq::empty()
    } else {
        emits_all(ps.subrange(0, ps.len() - 1), r, in_teeth) + emits(ps[ps.len() - 1], r, in_teeth)
    }
}

/// Some ender under `g` (or `g` itself) fires when its driver with `in_teeth`
/// teeth turns by `r`.
pub open spec fn stops(g: Gear, r: (int, int), in_teeth: int) -> bool
    decreases g,
{
    let own = own_rot(r, in_teeth, g.teeth());
    match g {
        Gear::Rotator(ng) => stops_any(ng.parrarel@, neg(own), ng.n as int) || match ng.child {
            Some(c) => stops(*c, own, ng.n as int),
            None => false,
        },
        Gear::Counter(cg) => match cg.child {
            Some(c) => stops(*c, own, cg.n as int),
            None => false,
        },
        Gear::Ender(_) => fires(own),
    }
}

pub open spec fn stops_any(ps: Seq<Gear>, r: (int, int), in_teeth: int) -> bool
    decreases ps,
{
    if ps.len() == 0 {
        false
    } else {
        stops_any(ps.subrange(0, ps.len() - 1), r, in_teeth) || stops(ps[ps.len() - 1], r, in_teeth)
    }
}

pub proof fn lemma_wf_all_index(ps: Seq<Gear>, i: int)
    requires
        wf_all(ps),
        0 <= i < ps.len(),
    ensures
        wf(ps[i]),
    decreases ps.len(),
{
    if i < ps.len() - 1 {
        lemma_wf_all_index(ps.subrange(0, ps.len() - 1), i);
    }
}

impl Gear {
    /// Turns this gear, driven by `rot` through a gear with `n` teeth, appends
    /// what the counters under it show to `out`, and tells whether an ender
    /// under it fired.
    pub fn turn(&self, rot: Rot, n: u32, out: &mut Vec<Emission>) -> (stop: bool)
        requires
            wf(*self),
            in_train(rot@, n as int),
        ensures
            emission_view(final(out)@) == emission_view(old(out)@) + emits(*self, rot@, n as int),
            stop == stops(*self, rot@, n as int),
        decreases self,
    {
        match self {
            Gear::Rotator(g) => g.turn(rot, n, out),
            Gear::Counter(g) => g.turn(rot, n, out),
            Gear::Ender(g) => g.turn(rot, n),
        }
    }
}

proof fn lemma_push_view(s: Seq<Emission>, e: Emission)
    ensures
        emission_view(s.push(e)) == emission_view(s) + seq![(e.0@, e.1@)],
{
    assert(emission_view(s.push(e)) =~= emission_view(s) + seq![(e.0@, e.1@)]);
}

impl NGear {
    pub fn turn(&self, rot: Rot, n: u32, out: &mut Vec<Emission>) -> (stop: bool)
        requires
            wf(Gear::Rotator(*self)),
            in_train(rot@, n as int),
        ensures
            emission_view(final(out)@) == emission_view(old(out)@) + emits(
                Gear::Rotator(*self),
                rot@,
                n as int,
            ),
            stop == stops(Gear::Rotator(*self), rot@, n as int),
        decreases self,
    {
        let own = self_rot(rot, n, self.n);
        proof {
            lemma_own_rot_in_train(rot@, n as int, self.n as int);
        }
        let ghost ps = self.parrarel@;
        let ghost start = emission_view(out@);
        let mut stop = false;
        let mut i: usize = 0;
        while i < self.parrarel.len()
            invariant
                ps == self.parrarel@,
                wf_all(ps),
                in_train(neg(own@), self.n as int),
                own@ == own_rot(rot@, n as int, self.n as int),
                i <= ps.len(),
                emission_view(out@) == start + emits_all(ps.subrange(0, i as int), neg(own@), self.n as int),
                stop == stops_any(ps.subrange(0, i as int), neg(own@), self.n as int),
            decreases ps.len() - i,
        {
            proof {
                lemma_wf_all_index(ps, i as int);
                assert(ps.subrange(0, i + 1).subrange(0, i as int) =~= ps.subrange(0, i as int));
                assert(ps.subrange(0, i + 1)[i as int] == ps[i as int]);
                assert(decreases_to!(self => self.parrarel@[i as int]));
            }
            let s = self.parrarel[i].turn(Rot { num: -own.num, den: own.den }, self.n, out);
            stop = stop || s;
            i = i + 1;
        }
        proof {
            assert(ps.subrange(0, ps.len() as int) =~= ps);
        }
        match &self.child {
            Some(c) => {
                let s = c.turn(own, self.n, out);
                stop || s
            },
            None => stop,
        }
    }
}

impl CGear {
    pub fn turn(&self, rot: Rot, n: u32, out: &mut Vec<Emission>) -> (stop: bool)
        requires
            wf(Gear::Counter(*self)),
            in_train(rot@, n as int),
        ensures
            emission_view(final(out)@) == emission_view(old(out)@) + emits(
                Gear::Counter(*self),
                rot@,
                n as int,
            ),
            stop == stops(Gear::Counter(*self), rot@, n as int),
        decreases self,
    {
        let own = self_rot(rot, n, self.n);
        let idx = select(&own, self.symbols.len());
        let label = match &self.label {
            Some(l) => l.clone(),
            None => String::new(),
        };
        let symbol = self.symbols[idx].clone();
        proof {
            lemma_push_view(out@, (label, symbol));
        }
        out.push((label, symbol));
        match &self.child {
            Some(c) => c.turn(own, self.n, out),
            None => false,
        }
    }
}

impl EGear {
    pub fn turn(&self, rot: Rot, n: u32) -> (stop: bool)
        requires
            self.n > 0,
            in_train(rot@, n as int),
        ensures
            stop == stops(Gear::Ender(*self), rot@, n as int),
    {
        let own = self_rot(rot, n, self.n);
        is_done(&own)
    }
}

} // verus!
