//! Tweens: timed interpolations of a node property that feed edits into the
//! context's event queue.

use vstd::prelude::*;

use crate::NodeId;
use crate::event::UIEvent;
use crate::node::{spec_pixels, UiVec2};
use crate::primitives::{Color, Scalar, Vec2};

verus! {

/// The easing curves a tween can follow.
#[derive(Debug, Clone, Copy, PartialEq, Eq, Structural)]
pub enum Easing {
    Linear,
    EaseInQuad,
    EaseOutQuad,
    EaseInOutQuad,
    BounceOut,
    /// A curve of the application's own, known to the tween step by this id.
    Custom(u32),
}

/// The property a tween animates, with its start and end values.
#[allow(inconsistent_fields)]
#[derive(Debug, Clone, Copy, PartialEq, Eq, Structural)]
pub enum TweenProperty {
    Position { from: Vec2, to: Vec2 },
    Size { from: Vec2, to: Vec2 },
    Opacity { from: Scalar, to: Scalar },
    Color { from: Color, to: Color },
}

/// The value of an animated property at some instant.
#[derive(Debug, Clone, Copy, PartialEq, Eq, Structural)]
pub enum TweenSample {
    /// A position or a size.
    Vector(Vec2),
    /// An opacity.
    Number(Scalar),
    /// A colour.
    Tint(Color),
}

/// What advancing a tween by one step yields: its new elapsed time, whether
/// it has now run its full duration, and the property's value.
pub type StepResult = (Scalar, bool, TweenSample);

/// The edit that applies `v` to `target`'s animated property, or nothing
/// when `v` is not a value of that property.
pub open spec fn sample_event(prop: TweenProperty, target: NodeId, v: TweenSample) -> Seq<UIEvent> {
    match (prop, v) {
        (TweenProperty::Position { .. }, TweenSample::Vector(p)) => seq![
            UIEvent::SetPosition { target, offset: spec_pixels(p.x, p.y) },
        ],
        (TweenProperty::Size { .. }, TweenSample::Vector(p)) => seq![
            UIEvent::SetSize { target, size: spec_pixels(p.x, p.y) },
        ],
        (TweenProperty::Opacity { .. }, TweenSample::Number(o)) => seq![
            UIEvent::SetOpacity { target, opacity: o },
        ],
        (TweenProperty::Color { .. }, TweenSample::Tint(c)) => seq![
            UIEvent::SetColor { target, color: c },
        ],
        _ => Seq::empty(),
    }
}

/// The edits one step of `tw` produces given the step result `r`: nothing
/// for a finished tween; otherwise its completion edits when `r` says it has
/// just finished, then the edit carrying the sampled value.
pub open spec fn step_events(tw: Tween, r: StepResult) -> Seq<UIEvent> {
    if tw.done {
        Seq::empty()
    } else {
        (if r.1 {
            tw.on_complete@
        } else {
            Seq::empty()
        }) + sample_event(tw.property, tw.target, r.2)
    }
}

/// Whether `tw` is still running after a step with result `r`.
pub open spec fn stays(tw: Tween, r: StepResult) -> bool {
    !tw.done && !r.1
}

/// `after` is `before` advanced by one unfinished step with result `r`.
pub open spec fn advanced(before: Tween, after: Tween, r: StepResult) -> bool {
    &&& after.property == before.property
    &&& after.duration == before.duration
    &&& after.easing == before.easing
    &&& after.target == before.target
    &&& after.elapsed == r.0
    &&& !after.done
    &&& after.on_complete@ == before.on_complete@
}

/// The edits of a whole step of the tweens `ts`, in order.
pub open spec fn all_step_events(ts: Seq<Tween>, rs: Seq<StepResult>) -> Seq<UIEvent>
    decreases ts.len(),
{
    if ts.len() == 0 {
        Seq::empty()
    } else {
        all_step_events(ts.drop_last(), rs.drop_last()) + step_events(ts.last(), rs[ts.len() - 1])
    }
}

/// The positions in `ts` of the tweens still running after the step.
pub open spec fn kept_positions(ts: Seq<Tween>, rs: Seq<StepResult>) -> Seq<int>
    decreases ts.len(),
{
    if ts.len() == 0 {
        Seq::empty()
    } else {
        let k = kept_positions(ts.drop_last(), rs.drop_last());
        if stays(ts.last(), rs[ts.len() - 1]) {
            k.push(ts.len() - 1)
        } else {
            k
        }
    }
}

/// `rs` holds an answer of `sample` for every running tween of `ts`.
pub open spec fn sampled<S: Fn(TweenProperty, Easing, Scalar, Scalar, Scalar) -> StepResult>(
    sample: S,
    ts: Seq<Tween>,
    rs: Seq<StepResult>,
    dt: Scalar,
) -> bool {
    &&& rs.len() == ts.len()
    &&& forall|i: int|
        0 <= i < ts.len() && !ts[i].done ==> call_ensures(
            sample,
            (ts[i].property, ts[i].easing, ts[i].elapsed, ts[i].duration, dt),
            #[trigger] rs[i],
        )
}

/// One step of every tween of `ts` turns them into `after` and produces
/// `evs`: the unfinished ones advance and stay in order, the others leave.
pub open spec fn engine_step(ts: Seq<Tween>, rs: Seq<StepResult>, after: Seq<Tween>, evs: Seq<UIEvent>) -> bool {
    let k = kept_positions(ts, rs);
    &&& after.len() == k.len()
    &&& forall|j: int| 0 <= j < k.len() ==> #[trigger] advanced(ts[k[j]], after[j], rs[k[j]])
    &&& evs == all_step_events(ts, rs)
}

/// `sample` can be asked anything.
pub open spec fn sample_total<S: Fn(TweenProperty, Easing, Scalar, Scalar, Scalar) -> StepResult>(sample: S) -> bool {
    forall|p: TweenProperty, e: Easing, a: Scalar, d: Scalar, t: Scalar|
        #[trigger] call_requires(sample, (p, e, a, d, t))
}

proof fn lemma_kept_positions_bound(ts: Seq<Tween>, rs: Seq<StepResult>)
    ensures
        forall|j: int| 0 <= j < kept_positions(ts, rs).len() ==> 0 <= #[trigger] kept_positions(ts, rs)[j] < ts.len(),
    decreases ts.len(),
{
    if ts.len() > 0 {
        lemma_kept_positions_bound(ts.drop_last(), rs.drop_last());
        let k = kept_positions(ts.drop_last(), rs.drop_last());
        assert forall|j: int| 0 <= j < kept_positions(ts, rs).len() implies 0 <= #[trigger] kept_positions(ts, rs)[j] < ts.len() by {
            if j < k.len() {
                assert(0 <= k[j] < ts.drop_last().len());
            }
        }
    }
}

pub struct Tween {
    pub property: TweenProperty,
    pub duration: Scalar,
    pub elapsed: Scalar,
    pub easing: Easing,
    pub target: NodeId,
    pub done: bool,
    /// Edits queued once, when the tween finishes.
    pub on_complete: Vec<UIEvent>,
}

pub struct TweenEngine {
    tweens: Vec<Tween>,
    event: Vec<UIEvent>,
}

impl TweenEngine {
    /// The running tweens, in the order they were added.
    pub closed spec fn running(&self) -> Seq<Tween> {
        self.tweens@
    }

    /// Edits produced and not yet drained.
    pub closed spec fn produced(&self) -> Seq<UIEvent> {
        self.event@
    }

    pub fn new() -> (e: Self)
        ensures
            e.running() == Seq::<Tween>::empty(),
            e.produced() == Seq::<UIEvent>::empty(),
    {
        TweenEngine { tweens: Vec::new(), event: Vec::new() }
    }

    /// Advances every unfinished tween by `dt`, in order.
    ///
    /// For each such tween `sample` is asked for its new elapsed time, whether
    /// it is now finished, and the animated value.  A tween that finishes
    /// queues its completion edits first; then the edit carrying the value is
    /// queued.  Finished tweens are dropped; the others keep their order.
    pub fn update<S: Fn(TweenProperty, Easing, Scalar, Scalar, Scalar) -> StepResult>(
        &mut self,
        dt: Scalar,
        sample: &S,
    )
        requires
            sample_total(*sample),
        ensures
            exists|rs: Seq<StepResult>|
                {
                    &&& sampled(*sample, old(self).running(), rs, dt)
                    &&& #[trigger] engine_step(
                        old(self).running(),
                        rs,
                        final(self).running(),
                        final(self).produced().subrange(old(self).produced().len() as int, final(self).produced().len() as int),
                    )
                },
            final(self).produced().len() >= old(self).produced().len(),
            final(self).produced().subrange(0, old(self).produced().len() as int) == old(self).produced(),
    {
        let ghost ts = self.tweens@;
        let ghost ev0 = self.event@;
        let mut pending: Vec<Tween> = Vec::new();
        std::mem::swap(&mut pending, &mut self.tweens);
        let ghost mut rs: Seq<StepResult> = Seq::empty();
        let ghost mut n: int = 0;
        assert(pending@ =~= ts.subrange(0, ts.len() as int));
        assert(ts.take(0) =~= Seq::<Tween>::empty());
        assert(self.event@.subrange(ev0.len() as int, self.event@.len() as int) =~= Seq::<UIEvent>::empty());
        assert(self.event@.subrange(0, ev0.len() as int) =~= ev0);
        while pending.len() > 0
            invariant
                0 <= n <= ts.len(),
                pending@ == ts.subrange(n, ts.len() as int),
                sampled(*sample, ts.take(n), rs, dt),
                engine_step(ts.take(n), rs, self.tweens@, self.event@.subrange(ev0.len() as int, self.event@.len() as int)),
                self.event@.len() >= ev0.len(),
                self.event@.subrange(0, ev0.len() as int) == ev0,
                sample_total(*sample),
            decreases pending@.len(),
        {
            let ghost before_ev = self.event@;
            let ghost before_tw = self.tweens@;
            let mut tween = pending.remove(0);
            assert(tween == ts[n]);
            let ghost r: StepResult = (tween.elapsed, tween.done, TweenSample::Number(tween.elapsed));
            if !tween.done {
                let (elapsed, finished, value) = sample(
                    tween.property,
                    tween.easing,
                    tween.elapsed,
                    tween.duration,
                    dt,
                );
                proof {
                    r = (elapsed, finished, value);
                }
                tween.elapsed = elapsed;
                if finished {
                    tween.done = true;
                    self.event.append(&mut tween.on_complete);
                }
                match (tween.property, value) {
                    (TweenProperty::Position { .. }, TweenSample::Vector(p)) => {
                        self.event.push(
                            UIEvent::SetPosition { target: tween.target, offset: UiVec2::pixels(p.x, p.y) },
                        );
                    },
                    (TweenProperty::Size { .. }, TweenSample::Vector(p)) => {
                        self.event.push(
                            UIEvent::SetSize { target: tween.target, size: UiVec2::pixels(p.x, p.y) },
                        );
                    },
                    (TweenProperty::Opacity { .. }, TweenSample::Number(o)) => {
                        self.event.push(UIEvent::SetOpacity { target: tween.target, opacity: o });
                    },
                    (TweenProperty::Color { .. }, TweenSample::Tint(c)) => {
                        self.event.push(UIEvent::SetColor { target: tween.target, color: c });
                    },
                    _ => {},
                }
            }
            if !tween.done {
                self.tweens.push(tween);
            }
            proof {
                let tw0 = ts[n];
                let ts1 = ts.take(n + 1);
                assert(ts1.drop_last() =~= ts.take(n));
                assert(ts1.last() == tw0);
                let rs1 = rs.push(r);
                assert(rs1.drop_last() =~= rs);
                assert(rs1[ts1.len() - 1] == r);
                let new_ev = self.event@.subrange(ev0.len() as int, self.event@.len() as int);
                let old_ev = before_ev.subrange(ev0.len() as int, before_ev.len() as int);
                assert(self.event@.subrange(before_ev.len() as int, self.event@.len() as int) =~= step_events(tw0, r));
                assert(new_ev =~= old_ev + step_events(tw0, r));
                assert(self.event@.subrange(0, ev0.len() as int) =~= ev0);
                lemma_kept_positions_bound(ts.take(n), rs);
                let k0 = kept_positions(ts.take(n), rs);
                let k1 = kept_positions(ts1, rs1);
                assert forall|j: int| 0 <= j < k1.len() implies #[trigger] advanced(ts1[k1[j]], self.tweens@[j], rs1[k1[j]]) by {
                    if j < k0.len() {
                        assert(k1[j] == k0[j]);
                        assert(advanced(ts.take(n)[k0[j]], before_tw[j], rs[k0[j]]));
                        assert(ts1[k1[j]] == ts.take(n)[k0[j]]);
                        assert(rs1[k1[j]] == rs[k0[j]]);
                    } else {
                        assert(k1[j] == n);
                    }
                }
                assert forall|i: int|
                    0 <= i < ts1.len() && !ts1[i].done implies call_ensures(
                    *sample,
                    (ts1[i].property, ts1[i].easing, ts1[i].elapsed, ts1[i].duration, dt),
                    #[trigger] rs1[i],
                ) by {
                    if i < n {
                        assert(ts1[i] == ts.take(n)[i]);
                        assert(rs1[i] == rs[i]);
                    }
                }
                rs = rs1;
                n = n + 1;
                assert(pending@ =~= ts.subrange(n, ts.len() as int));
            }
        }
        assert(ts.take(n) =~= ts);
        assert(sampled(*sample, ts, rs, dt));
        assert(engine_step(ts, rs, self.tweens@, self.event@.subrange(ev0.len() as int, self.event@.len() as int)));
        assert(engine_step(
            old(self).running(),
            rs,
            self.running(),
            self.produced().subrange(old(self).produced().len() as int, self.produced().len() as int),
        ));
        assert(sampled(*sample, old(self).running(), rs, dt));
    }

    /// Hands over the edits produced so far, oldest first, and forgets them.
    pub fn drain_events(&mut self) -> (evs: Vec<UIEvent>)
        ensures
            evs@ == old(self).produced(),
            final(self).produced() == Seq::<UIEvent>::empty(),
            final(self).running() == old(self).running(),
    {
        let mut evs: Vec<UIEvent> = Vec::new();
        std::mem::swap(&mut evs, &mut self.event);
        evs
    }

    /// Starts animating `tween` from the next update on.
    pub fn add(&mut self, tween: Tween)
        ensures
            final(self).running() == old(self).running().push(tween),
            final(self).produced() == old(self).produced(),
    {
        self.tweens.push(tween);
    }
}

impl Default for TweenEngine {
    fn default() -> (e: Self)
        ensures
            e.running() == Seq::<Tween>::empty(),
            e.produced() == Seq::<UIEvent>::empty(),
    {
        TweenEngine::new()
    }
}

} // verus!
