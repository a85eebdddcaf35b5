//! Round-trip lag estimation: where a ping's target angle falls in a body's
//! recorded trail, and the bounded window of lag samples.
use vstd::prelude::*;

verus! {

/// The most lag samples that a window keeps.
pub const LAG_CAPACITY: usize = 1000;

/// How one history snapshot stands against a ping's target angle.
#[derive(Clone, Copy, PartialEq, Eq, Debug)]
pub enum TrailMark {
    /// The snapshot has no entry for the pinged body.
    Absent,
    /// The body's recorded angle is not below the target.
    NotReached,
    /// The body's recorded angle is below the target.
    Reached,
}

/// The snapshot at which a ping's target was reached, counted from the
/// newest, and the snapshot whose angle the estimate interpolates from: the
/// one just newer, or the same one when it is the newest.
#[derive(Clone, Copy, PartialEq, Eq, Debug)]
pub struct CatchUp {
    pub slot: usize,
    pub newer: usize,
}

/// `r` answers a scan of `trail` (newest first): the first `Reached` before
/// any `Absent`, or `None` when the trail ends or a snapshot lacks the body
/// first.
pub open spec fn is_catch_up(trail: Seq<TrailMark>, r: Option<CatchUp>) -> bool {
    match r {
        Some(c) => {
            &&& c.slot < trail.len()
            &&& trail[c.slot as int] == TrailMark::Reached
            &&& forall|k: int| 0 <= k < c.slot ==> trail[k] == TrailMark::NotReached
            &&& c.newer == if c.slot == 0 { 0 } else { c.slot - 1 }
        },
        None => forall|k: int|
            0 <= k < trail.len() && trail[k] == TrailMark::Reached ==> exists|m: int|
                0 <= m < k && trail[m] == TrailMark::Absent,
    }
}

/// Scans a body's trail, newest snapshot first, for the snapshot at which a
/// ping's target angle was reached.
pub fn catch_up(trail: &Vec<TrailMark>) -> (r: Option<CatchUp>)
    ensures
        is_catch_up(trail@, r),
{
    let mut i: usize = 0;
    while i < trail.len()
        invariant
            i <= trail.len(),
            forall|k: int| 0 <= k < i ==> trail@[k] == TrailMark::NotReached,
        decreases trail.len() - i,
    {
        match trail[i] {
            TrailMark::Absent => {
                assert forall|k: int| 0 <= k < trail@.len() && trail@[k] == TrailMark::Reached implies exists|m: int|
                    0 <= m < k && trail@[m] == TrailMark::Absent by {
                    assert(k > i);
                    assert(trail@[i as int] == TrailMark::Absent);
                }
                return None;
            },
            TrailMark::Reached => {
                let newer = if i == 0 { 0 } else { i - 1 };
                return Some(CatchUp { slot: i, newer });
            },
            TrailMark::NotReached => {},
        }
        i += 1;
    }
    None
}

/// The window after recording `v` in a window holding `s`: `v` is appended,
/// and the oldest sample leaves when the window would exceed its capacity.
pub open spec fn recorded<T>(s: Seq<T>, v: T) -> Seq<T> {
    let t = s.push(v);
    if t.len() > LAG_CAPACITY {
        t.drop_first()
    } else {
        t
    }
}

/// The window after recording each of `samples` in turn, from `s`.
pub open spec fn recorded_all<T>(s: Seq<T>, samples: Seq<T>) -> Seq<T>
    decreases samples.len(),
{
    if samples.len() == 0 {
        s
    } else {
        recorded(recorded_all(s, samples.drop_last()), samples.last())
    }
}

/// The most recent lag samples, oldest first, at most `LAG_CAPACITY` of them.
pub struct LagWindow<T> {
    values: Vec<T>,
}

impl<T> View for LagWindow<T> {
    type V = Seq<T>;

    closed spec fn view(&self) -> Seq<T> {
        self.values@
    }
}

impl<T> LagWindow<T> {
    /// The window holds no more than its capacity.
    pub open spec fn wf(&self) -> bool {
        self@.len() <= LAG_CAPACITY
    }

    /// An empty window.
    pub fn new() -> (r: Self)
        ensures
            r@ == Seq::<T>::empty(),
            r.wf(),
    {
        LagWindow { values: Vec::new() }
    }

    /// Records one sample, evicting the oldest when the window is full.
    pub fn record(&mut self, v: T)
        requires
            old(self).wf(),
        ensures
            final(self).wf(),
            final(self)@ == recorded(old(self)@, v),
    {
        self.values.push(v);
        if self.values.len() > LAG_CAPACITY {
            self.values.remove(0);
            assert(self.values@ =~= recorded(old(self)@, v));
        }
    }

    /// The samples, oldest first.
    pub fn values(&self) -> (r: &Vec<T>)
        ensures
            r@ == self@,
    {
        &self.values
    }

    /// The number of samples held.
    pub fn len(&self) -> (r: usize)
        ensures
            r == self@.len(),
    {
        self.values.len()
    }
}

/// A window keeps the latest samples: from a window that holds no more than
/// its capacity, recording a run of samples leaves the old contents followed
/// by the run, without the oldest of them beyond `LAG_CAPACITY`.
pub proof fn lemma_window_keeps_latest<T>(s: Seq<T>, samples: Seq<T>)
    requires
        s.len() <= LAG_CAPACITY,
    ensures
        recorded_all(s, samples) == (s + samples).skip(
            if s.len() + samples.len() > LAG_CAPACITY {
                s.len() + samples.len() - LAG_CAPACITY
            } else {
                0
            },
        ),
    decreases samples.len(),
{
    if samples.len() == 0 {
        assert((s + samples).skip(0) =~= s);
    } else {
        let init = samples.drop_last();
        lemma_window_keeps_latest(s, init);
        let all = s + samples;
        assert(s + init =~= all.drop_last());
        let n = all.len();
        let cut = if n - 1 > LAG_CAPACITY { n - 1 - LAG_CAPACITY } else { 0 };
        let prev = all.drop_last().skip(cut);
        assert(prev.push(samples.last()) =~= all.skip(cut));
        if n > LAG_CAPACITY {
            assert(all.skip(cut).drop_first() =~= all.skip(n - LAG_CAPACITY));
        }
    }
}

} // verus!
