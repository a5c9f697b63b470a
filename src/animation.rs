use vstd::prelude::*;
use crate::aggregate::{aggregate, is_aggregation};
use crate::gears::{Emission, Gear, emission_view, emits, stops, wf};
use crate::rotation::Rot;

verus! {

/// The rotation that drives the genesis gear: `num / den` revolutions.
pub struct Drive {
    pub num: i64,
    pub den: u32,
}

impl View for Drive {
    type V = (int, int);

    open spec fn view(&self) -> (int, int) {
        (self.num as int, self.den as int)
    }
}

/// What one step shows: one entry per label, in label order, and whether an
/// ender fired.
pub struct Frame {
    pub entries: Vec<Emission>,
    pub stop: bool,
}

/// One step of the animation: turns the train from the genesis gear by `rot`
/// (a driver of one tooth), groups what the counters show by label and
/// tells whether an ender fired.
pub fn step(genesis: &Gear, rot: &Drive) -> (f: Frame)
    requires
        wf(*genesis),
        rot.den > 0,
    ensures
        is_aggregation(emission_view(f.entries@), emits(*genesis, rot@, 1)),
        f.stop == stops(*genesis, rot@, 1),
{
    let mut shown: Vec<Emission> = Vec::new();
    let r = Rot { num: rot.num as i128, den: rot.den as u64 };
    assert(emission_view(shown@) =~= Seq::empty());
    let stop = genesis.turn(r, 1, &mut shown);
    assert(emission_view(shown@) =~= emits(*genesis, rot@, 1));
    let entries = aggregate(&shown);
    Frame { entries, stop }
}

/// The lines that show a frame's entries: each label followed by its symbols.
pub fn render(entries: &Vec<Emission>) -> (lines: Vec<String>)
    ensures
        lines.len() == entries.len(),
        forall|i: int| 0 <= i < lines.len() ==> #[trigger] lines@[i]@ == entries@[i].0@ + entries@[i].1@,
{
    let mut lines: Vec<String> = Vec::new();
    let mut i: usize = 0;
    while i < entries.len()
        invariant
            i <= entries.len(),
            lines.len() == i,
            forall|k: int| 0 <= k < i ==> #[trigger] lines@[k]@ == entries@[k].0@ + entries@[k].1@,
        decreases entries.len() - i,
    {
        let line = entries[i].0.clone().concat(entries[i].1.as_str());
        lines.push(line);
        i = i + 1;
    }
    lines
}

/// The driving rotation one step later: `rot` advanced by `step / rot.den`;
/// `None` where the numerator leaves 64 bits.
pub fn advance(rot: &Drive, step: i64) -> (r: Option<Drive>)
    ensures
        r is Some <==> i64::MIN <= rot.num + step <= i64::MAX,
        r matches Some(d) ==> d@ == (rot.num + step, rot.den as int),
{
    match rot.num.checked_add(step) {
        Some(num) => Some(Drive { num, den: rot.den }),
        None => None,
    }
}

/// The animation's next drive after showing `frame`: `None` once an ender
/// has fired (or the drive would leave 64 bits), else `rot` advanced by
/// `step / rot.den`.
pub fn next_drive(frame: &Frame, rot: &Drive, step: i64) -> (r: Option<Drive>)
    ensures
        r is None <==> frame.stop || !(i64::MIN <= rot.num + step <= i64::MAX),
        r matches Some(d) ==> d@ == (rot.num + step, rot.den as int),
{
    if frame.stop {
        None
    } else {
        advance(rot, step)
    }
}

} // verus!
