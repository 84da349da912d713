//! An animation: figures, and the frames that pose them one after another.
//!
//! Every frame poses the same figures. Whenever the animation leaves a
//! frame it first takes that frame's poses from the figures, and whenever
//! it enters a frame it lays the figures out in that frame's poses; no
//! caller has to remember either.

pub mod frame;
pub mod timeline;

use crate::animation::frame::{
    actor_fits, frame_fits, saved, trees, ActorView, FigureAnimation, Frame, FrameView,
};
use crate::figure::edge::Edge;
use crate::figure::{lemma_reposed, reposed, well_formed, Figure, FigureError};
use vstd::prelude::*;

verus! {

/// An animation.
#[derive(Debug)]
pub struct Animation {
    /// The figures that the frames pose.
    pub figures: Vec<Figure>,
    /// The frames, in the order in which they are played.
    pub frames: Vec<Frame>,
    /// The place of the frame being shown and edited.
    pub selected_frame: usize,
    /// When the animation last went on to a new frame while playing, in
    /// thousandths of a second.
    pub previous_time: u64,
    /// How fast the animation plays, in thousandths of a frame per second.
    pub framerate: u32,
}

/// What each of the frames is.
pub open spec fn frame_views(frames: Seq<Frame>) -> Seq<FrameView> {
    Seq::new(frames.len(), |i: int| frames[i]@)
}

/// The figures after the first `k` of the actors were laid out in their
/// poses, one after the other.
pub open spec fn loaded(figures: Seq<Seq<Edge>>, actors: Seq<ActorView>, k: nat) -> Seq<Seq<Edge>>
    decreases k,
{
    if k == 0 || k > actors.len() {
        figures
    } else {
        let before = loaded(figures, actors, (k - 1) as nat);
        let actor = actors[k - 1];
        before.update(
            actor.global_index as int,
            reposed(before[actor.global_index as int], actor.moved_edges),
        )
    }
}

/// The frames after the animation went from the frame at `from` to the
/// frame at `to`: the frame it left holds the poses that the figures had,
/// and only the frame it entered is selected.
pub open spec fn switched(
    frames: Seq<FrameView>,
    figures: Seq<Seq<Edge>>,
    from: int,
    to: int,
) -> Seq<FrameView> {
    let left = frames.update(from, FrameView { is_selected: false, ..saved(frames[from], figures) });
    left.update(to, FrameView { is_selected: true, ..left[to] })
}

/// Whether a frame's time is up: whether from `previous` to `now`, in
/// thousandths of a second, at least one frame went by at `framerate`
/// thousandths of a frame per second.
pub open spec fn is_due(previous: u64, now: u64, framerate: u32) -> bool {
    now >= previous && (now - previous) * framerate >= 1_000_000
}

/// The frame that is played after the frame at `selected`: the next one,
/// or the first after the last.
pub open spec fn next_frame(selected: int, count: int) -> int {
    if selected + 1 >= count {
        0
    } else {
        selected + 1
    }
}

/// Every figure is the same as before but for where its points lie.
pub open spec fn same_but_trees(before: Seq<Figure>, after: Seq<Figure>) -> bool {
    &&& after.len() == before.len()
    &&& forall|g: int|
        0 <= g < before.len() ==> (#[trigger] after[g]).same_controls(&before[g]) && after[g]@.len()
            == before[g]@.len()
}

/// Laying actors out keeps every figure's number of segments, and keeps
/// well-formed figures well-formed.
pub proof fn lemma_loaded(figures: Seq<Seq<Edge>>, actors: Seq<ActorView>, k: nat)
    requires
        k <= actors.len(),
        forall|a: int| 0 <= a < actors.len() ==> actor_fits(#[trigger] actors[a], figures),
        forall|g: int| 0 <= g < figures.len() ==> well_formed(#[trigger] figures[g]),
    ensures
        loaded(figures, actors, k).len() == figures.len(),
        forall|g: int|
            0 <= g < figures.len() ==> (#[trigger] loaded(figures, actors, k)[g]).len()
                == figures[g].len() && well_formed(loaded(figures, actors, k)[g]),
    decreases k,
{
    if k > 0 {
        lemma_loaded(figures, actors, (k - 1) as nat);
        let before = loaded(figures, actors, (k - 1) as nat);
        let actor = actors[k - 1];
        assert(actor_fits(actor, figures));
        let g = actor.global_index as int;
        assert(well_formed(before[g]));
        lemma_reposed(before[g], actor.moved_edges);
    }
}

/// A frame that fits figures fits any figures of which there are at least
/// as many and of which each has as many segments.
pub proof fn lemma_fits_same_lengths(frame: FrameView, before: Seq<Seq<Edge>>, after: Seq<Seq<Edge>>)
    requires
        frame_fits(frame, before),
        before.len() <= after.len(),
        forall|g: int| 0 <= g < before.len() ==> (#[trigger] after[g]).len() == before[g].len(),
    ensures
        frame_fits(frame, after),
{
    assert forall|a: int| 0 <= a < frame.actors.len() implies actor_fits(
        #[trigger] frame.actors[a],
        after,
    ) by {
        assert(actor_fits(frame.actors[a], before));
    }
}

/// Whether `after` is what `before` is once it has gone over to the frame
/// at `to`: the frames are switched, and the figures lie in the poses of
/// the frame entered. The clock is not looked at.
pub open spec fn entered(before: Animation, after: Animation, to: int) -> bool {
    let frames = switched(
        frame_views(before.frames@),
        trees(before.figures@),
        before.selected_frame as int,
        to,
    );
    &&& frame_views(after.frames@) == frames
    &&& after.selected_frame == to
    &&& after.framerate == before.framerate
    &&& same_but_trees(before.figures@, after.figures@)
    &&& trees(after.figures@) == loaded(
        trees(before.figures@),
        frames[to].actors,
        frames[to].actors.len(),
    )
}

impl Animation {
    /// The frames and figures agree: there is a frame, the selected frame
    /// exists and is the only one marked selected, every figure is
    /// well-formed, and every actor fits its figure.
    pub open spec fn wf(&self) -> bool {
        &&& self.frames@.len() >= 1
        &&& self.selected_frame < self.frames@.len()
        &&& forall|g: int| 0 <= g < self.figures@.len() ==> well_formed(#[trigger] self.figures@[g]@)
        &&& forall|f: int|
            0 <= f < self.frames@.len() ==> frame_fits(
                (#[trigger] self.frames@[f])@,
                trees(self.figures@),
            ) && self.frames@[f].is_selected == (f == self.selected_frame)
    }

    /// An animation of one empty frame, playing five frames per second.
    pub fn new() -> (animation: Animation)
        ensures
            animation.wf(),
            animation.figures@.len() == 0,
            animation.frames@.len() == 1,
            animation.frames@[0]@.actors.len() == 0,
            animation.selected_frame == 0,
            animation.previous_time == 0,
            animation.framerate == 5000,
    {
        let mut first = Frame::new();
        first.is_selected = true;
        let mut frames: Vec<Frame> = Vec::new();
        frames.push(first);
        Animation {
            figures: Vec::new(),
            frames,
            selected_frame: 0,
            previous_time: 0,
            framerate: 5000,
        }
    }

    /// Adds a figure to the animation, and to the selected frame an actor
    /// that plays it in the pose it has.
    pub fn push_figure(&mut self, figure: Figure)
        requires
            old(self).wf(),
            figure.wf(),
        ensures
            final(self).wf(),
            final(self).figures@ == old(self).figures@.push(figure),
            final(self).selected_frame == old(self).selected_frame,
            final(self).previous_time == old(self).previous_time,
            final(self).framerate == old(self).framerate,
            frame_views(final(self).frames@) == frame_views(old(self).frames@).update(
                old(self).selected_frame as int,
                FrameView {
                    actors: old(self).frames@[old(self).selected_frame as int]@.actors.push(
                        ActorView {
                            global_index: old(self).figures@.len() as usize,
                            local_index: old(self).frames@[old(self).selected_frame as int]@.actors.len() as usize,
                            moved_edges: crate::figure::scanned(figure@),
                        },
                    ),
                    is_selected: true,
                },
            ),
    {
        let pose = figure.scan();
        let global = self.figures.len();
        let selected = self.selected_frame;
        let local = self.frames[selected].figure_animation.len();
        let ghost actors = self.frames@[selected as int]@.actors;
        self.figures.push(figure);
        self.frames[selected].figure_animation.push(
            FigureAnimation { global_index: global, local_index: local, moved_edges: pose },
        );
        proof {
            let added = ActorView {
                global_index: global,
                local_index: local,
                moved_edges: crate::figure::scanned(figure@),
            };
            assert(self.frames@[selected as int]@.actors =~= actors.push(added));
            assert(frame_views(self.frames@) =~= frame_views(old(self).frames@).update(
                selected as int,
                FrameView { actors: actors.push(added), is_selected: true },
            ));
            let now = trees(self.figures@);
            let was = trees(old(self).figures@);
            assert forall|g: int| 0 <= g < was.len() implies (#[trigger] now[g]).len()
                == was[g].len() by {
                assert(now[g] == self.figures@[g]@);
            }
            assert forall|f: int| 0 <= f < self.frames@.len() implies frame_fits(
                (#[trigger] self.frames@[f])@,
                now,
            ) && self.frames@[f].is_selected == (f == self.selected_frame) by {
                lemma_fits_same_lengths(old(self).frames@[f]@, was, now);
                if f == selected {
                    assert forall|a: int| 0 <= a < self.frames@[f]@.actors.len() implies actor_fits(
                        #[trigger] self.frames@[f]@.actors[a],
                        now,
                    ) by {
                        if a < actors.len() {
                            assert(actor_fits(old(self).frames@[f]@.actors[a], now));
                        } else {
                            assert(now[global as int] == figure@);
                            assert forall|i: int| #[trigger]
                                added.moved_edges.contains_key(i) implies 0 <= i < figure@.len()
                                && added.moved_edges[i].0.in_bounds()
                                && added.moved_edges[i].1.in_bounds() by {
                                assert(figure@[i].in_bounds());
                            }
                        }
                    }
                }
            }
        }
    }

    /// Goes over to the frame at `index`: takes the poses of the frame it
    /// leaves from the figures, and lays the figures out in the poses of the
    /// frame it enters.
    pub fn select_frame(&mut self, index: usize) -> (done: Result<(), FigureError>)
        requires
            old(self).wf(),
        ensures
            final(self).wf(),
            final(self).previous_time == old(self).previous_time,
            match done {
                Ok(()) => index < old(self).frames@.len() && entered(
                    *old(self),
                    *final(self),
                    index as int,
                ),
                Err(e) => e == FigureError::InvalidIndex && index >= old(self).frames@.len()
                    && *final(self) == *old(self),
            },
    {
        if index >= self.frames.len() {
            return Err(FigureError::InvalidIndex);
        }
        let selected = self.selected_frame;
        self.frames[selected].save_state(&self.figures);
        self.frames[selected].is_selected = false;
        self.frames[index].is_selected = true;
        self.selected_frame = index;
        proof {
            assert(frame_views(self.frames@) =~= switched(
                frame_views(old(self).frames@),
                trees(old(self).figures@),
                selected as int,
                index as int,
            ));
            assert forall|f: int| 0 <= f < self.frames@.len() implies frame_fits(
                (#[trigger] self.frames@[f])@,
                trees(self.figures@),
            ) by {
                if f != selected {
                    assert(self.frames@[f]@.actors == old(self).frames@[f]@.actors);
                    assert(frame_fits(old(self).frames@[f]@, trees(self.figures@)));
                }
            }
        }
        let ghost mid = *self;
        self.load_frame(index);
        proof {
            let was = trees(mid.figures@);
            let now = trees(self.figures@);
            assert forall|g: int| 0 <= g < was.len() implies (#[trigger] now[g]).len()
                == was[g].len() by {
                assert(now[g] == self.figures@[g]@);
                assert(was[g] == mid.figures@[g]@);
            }
            assert forall|f: int| 0 <= f < self.frames@.len() implies frame_fits(
                (#[trigger] self.frames@[f])@,
                now,
            ) by {
                lemma_fits_same_lengths(mid.frames@[f]@, was, now);
            }
        }
        Ok(())
    }

    /// Adds a frame at the end that starts out as the selected frame is,
    /// with every pose as the figures now have it, and goes over to it.
    pub fn push_frame(&mut self)
        requires
            old(self).wf(),
        ensures
            final(self).wf(),
            final(self).figures == old(self).figures,
            final(self).previous_time == old(self).previous_time,
            final(self).framerate == old(self).framerate,
            final(self).selected_frame == old(self).frames@.len(),
            frame_views(final(self).frames@) == frame_views(old(self).frames@).update(
                old(self).selected_frame as int,
                FrameView {
                    is_selected: false,
                    ..saved(
                        old(self).frames@[old(self).selected_frame as int]@,
                        trees(old(self).figures@),
                    )
                },
            ).push(
                FrameView {
                    is_selected: true,
                    ..saved(
                        old(self).frames@[old(self).selected_frame as int]@,
                        trees(old(self).figures@),
                    )
                },
            ),
    {
        let selected = self.selected_frame;
        let mut fresh = self.frames[selected].clone();
        fresh.save_state(&self.figures);
        self.frames[selected].save_state(&self.figures);
        self.frames[selected].is_selected = false;
        self.selected_frame = self.frames.len();
        self.frames.push(fresh);
        proof {
            let kept = saved(old(self).frames@[selected as int]@, trees(old(self).figures@));
            assert(frame_views(self.frames@) =~= frame_views(old(self).frames@).update(
                selected as int,
                FrameView { is_selected: false, ..kept },
            ).push(FrameView { is_selected: true, ..kept }));
            assert forall|f: int| 0 <= f < self.frames@.len() implies frame_fits(
                (#[trigger] self.frames@[f])@,
                trees(self.figures@),
            ) && self.frames@[f].is_selected == (f == self.selected_frame) by {
                if f < old(self).frames@.len() && f != selected {
                    assert(self.frames@[f] == old(self).frames@[f]);
                }
            }
        }
    }

    /// Takes the selected frame out and goes over to the frame before it,
    /// or to the first frame if it was the first. The last frame of an
    /// animation cannot be taken out.
    pub fn remove_frame(&mut self) -> (done: Result<(), FigureError>)
        requires
            old(self).wf(),
        ensures
            final(self).wf(),
            final(self).previous_time == old(self).previous_time,
            final(self).framerate == old(self).framerate,
            match done {
                Ok(()) => {
                    let now = if old(self).selected_frame == 0 {
                        0int
                    } else {
                        old(self).selected_frame - 1
                    };
                    let rest = frame_views(old(self).frames@).remove(old(self).selected_frame as int);
                    &&& old(self).frames@.len() > 1
                    &&& final(self).selected_frame == now
                    &&& frame_views(final(self).frames@) == rest.update(
                        now,
                        FrameView { is_selected: true, ..rest[now] },
                    )
                    &&& same_but_trees(old(self).figures@, final(self).figures@)
                    &&& trees(final(self).figures@) == loaded(
                        trees(old(self).figures@),
                        rest[now].actors,
                        rest[now].actors.len(),
                    )
                },
                Err(e) => e == FigureError::UnsupportedOperation && old(self).frames@.len() == 1
                    && *final(self) == *old(self),
            },
    {
        if self.frames.len() <= 1 {
            return Err(FigureError::UnsupportedOperation);
        }
        let selected = self.selected_frame;
        let _gone = self.frames.remove(selected);
        let now: usize = if selected == 0 {
            0
        } else {
            selected - 1
        };
        self.frames[now].is_selected = true;
        self.selected_frame = now;
        proof {
            let rest = frame_views(old(self).frames@).remove(selected as int);
            assert(frame_views(self.frames@) =~= rest.update(
                now as int,
                FrameView { is_selected: true, ..rest[now as int] },
            ));
            assert forall|f: int| 0 <= f < self.frames@.len() implies frame_fits(
                (#[trigger] self.frames@[f])@,
                trees(self.figures@),
            ) && self.frames@[f].is_selected == (f == self.selected_frame) by {
                let from = if f < selected {
                    f
                } else {
                    f + 1
                };
                assert(self.frames@[f]@.actors == old(self).frames@[from]@.actors);
                assert(frame_fits(old(self).frames@[from]@, trees(self.figures@)));
            }
        }
        let ghost mid = *self;
        self.load_frame(now);
        proof {
            let was = trees(mid.figures@);
            let after = trees(self.figures@);
            assert forall|g: int| 0 <= g < was.len() implies (#[trigger] after[g]).len()
                == was[g].len() by {
                assert(after[g] == self.figures@[g]@);
                assert(was[g] == mid.figures@[g]@);
            }
            assert forall|f: int| 0 <= f < self.frames@.len() implies frame_fits(
                (#[trigger] self.frames@[f])@,
                after,
            ) by {
                lemma_fits_same_lengths(mid.frames@[f]@, was, after);
            }
        }
        Ok(())
    }

    /// Plays on: if the selected frame's time is up at `now`, in
    /// thousandths of a second, goes over to the next frame, the first
    /// after the last, and notes the time. Says whether it did.
    pub fn play(&mut self, now: u64) -> (advanced: bool)
        requires
            old(self).wf(),
        ensures
            final(self).wf(),
            advanced == is_due(old(self).previous_time, now, old(self).framerate),
            advanced ==> final(self).previous_time == now && entered(
                *old(self),
                *final(self),
                next_frame(old(self).selected_frame as int, old(self).frames@.len() as int),
            ),
            !advanced ==> *final(self) == *old(self),
    {
        if now < self.previous_time {
            return false;
        }
        let elapsed: u128 = (now - self.previous_time) as u128;
        assert(elapsed * (self.framerate as u128) <= u128::MAX) by (nonlinear_arith)
            requires
                elapsed <= u64::MAX,
                self.framerate <= u32::MAX,
        ;
        if elapsed * (self.framerate as u128) < 1_000_000 {
            return false;
        }
        let next: usize = if self.selected_frame >= self.frames.len() - 1 {
            0
        } else {
            self.selected_frame + 1
        };
        let _done = self.select_frame(next);
        self.previous_time = now;
        true
    }

    /// Gives the pointer to the actor at `local` of the selected frame, if
    /// the pointer has just grabbed its figure: no other figure of the
    /// frame follows the pointer from then on. Says whether it did.
    pub fn claim(&mut self, local: usize) -> (done: Result<bool, FigureError>)
        requires
            old(self).wf(),
        ensures
            final(self).wf(),
            final(self).frames == old(self).frames,
            final(self).selected_frame == old(self).selected_frame,
            final(self).previous_time == old(self).previous_time,
            final(self).framerate == old(self).framerate,
            match done {
                Ok(claimed) => {
                    let frame = old(self).frames@[old(self).selected_frame as int]@;
                    &&& local < frame.actors.len()
                    &&& claimed == {
                        let figure = old(self).figures@[frame.actors[local as int].global_index as int];
                        figure.should_update && figure.selected.is_some()
                    }
                    &&& crate::animation::frame::same_but_update(
                        old(self).figures@,
                        final(self).figures@,
                    )
                    &&& forall|g: int|
                        0 <= g < old(self).figures@.len() ==> (
                        #[trigger] final(self).figures@[g]).should_update == (old(self).figures@[g].should_update && !(claimed
                            && crate::animation::frame::played_by_other(frame, local as int, g)))
                },
                Err(e) => {
                    &&& e == FigureError::InvalidIndex
                    &&& local >= old(self).frames@[old(self).selected_frame as int]@.actors.len()
                    &&& *final(self) == *old(self)
                },
            },
    {
        let selected = self.selected_frame;
        if local >= self.frames[selected].figure_animation.len() {
            return Err(FigureError::InvalidIndex);
        }
        let global = self.frames[selected].figure_animation[local].global_index;
        proof {
            let frame = self.frames@[selected as int]@;
            assert(frame.actors[local as int].global_index == global);
            assert(actor_fits(frame.actors[local as int], trees(self.figures@)));
        }
        let claimed = self.figures[global].should_update && self.figures[global].selected.is_some();
        if claimed {
            self.frames[selected].disable_except(&mut self.figures, local);
        }
        proof {
            let was = trees(old(self).figures@);
            let now = trees(self.figures@);
            assert forall|g: int| 0 <= g < self.figures@.len() implies well_formed(
                #[trigger] self.figures@[g]@,
            ) by {
                assert(well_formed(old(self).figures@[g]@));
            }
            assert(now =~= was);
        }
        Ok(claimed)
    }

    /// Lets every figure of the selected frame follow the pointer again.
    pub fn release(&mut self)
        requires
            old(self).wf(),
        ensures
            final(self).wf(),
            final(self).frames == old(self).frames,
            final(self).selected_frame == old(self).selected_frame,
            final(self).previous_time == old(self).previous_time,
            final(self).framerate == old(self).framerate,
            crate::animation::frame::same_but_update(old(self).figures@, final(self).figures@),
            forall|g: int|
                0 <= g < old(self).figures@.len() ==> (
                #[trigger] final(self).figures@[g]).should_update == (old(self).figures@[g].should_update || crate::animation::frame::played(
                    old(self).frames@[old(self).selected_frame as int]@,
                    g,
                )),
    {
        let selected = self.selected_frame;
        self.frames[selected].enable_all(&mut self.figures);
        proof {
            let was = trees(old(self).figures@);
            let now = trees(self.figures@);
            assert forall|g: int| 0 <= g < self.figures@.len() implies well_formed(
                #[trigger] self.figures@[g]@,
            ) by {
                assert(well_formed(old(self).figures@[g]@));
            }
            assert(now =~= was);
        }
    }

    /// Lays the figures out in the poses of the frame at `index`.
    fn load_frame(&mut self, index: usize)
        requires
            index < old(self).frames@.len(),
            frame_fits(old(self).frames@[index as int]@, trees(old(self).figures@)),
            forall|g: int|
                0 <= g < old(self).figures@.len() ==> well_formed(#[trigger] old(self).figures@[g]@),
        ensures
            final(self).frames == old(self).frames,
            final(self).selected_frame == old(self).selected_frame,
            final(self).previous_time == old(self).previous_time,
            final(self).framerate == old(self).framerate,
            same_but_trees(old(self).figures@, final(self).figures@),
            trees(final(self).figures@) == loaded(
                trees(old(self).figures@),
                old(self).frames@[index as int]@.actors,
                old(self).frames@[index as int]@.actors.len(),
            ),
            forall|g: int|
                0 <= g < final(self).figures@.len() ==> well_formed(
                    #[trigger] final(self).figures@[g]@,
                ),
    {
        let ghost actors = self.frames@[index as int]@.actors;
        let ghost start = trees(self.figures@);
        let n = self.frames[index].figure_animation.len();
        let mut a: usize = 0;
        while a < n
            invariant
                a <= n,
                index < self.frames@.len(),
                self.frames == old(self).frames,
                self.selected_frame == old(self).selected_frame,
                self.previous_time == old(self).previous_time,
                self.framerate == old(self).framerate,
                actors == self.frames@[index as int]@.actors,
                n == actors.len(),
                start == trees(old(self).figures@),
                forall|k: int| 0 <= k < actors.len() ==> actor_fits(#[trigger] actors[k], start),
                forall|g: int| 0 <= g < start.len() ==> well_formed(#[trigger] start[g]),
                same_but_trees(old(self).figures@, self.figures@),
                trees(self.figures@) == loaded(start, actors, a as nat),
            decreases n - a,
        {
            let actor = &self.frames[index].figure_animation[a];
            let global = actor.global_index;
            proof {
                assert(actors[a as int] == self.frames@[index as int].figure_animation@[a as int]@);
                assert(actor_fits(actors[a as int], start));
                lemma_loaded(start, actors, a as nat);
                assert(trees(self.figures@)[global as int] == self.figures@[global as int]@);
                assert(actor.moved_edges@ == actors[a as int].moved_edges);
                assert(actor.moved_edges.in_bounds());
                assert(start[global as int] == old(self).figures@[global as int]@);
                assert(self.figures@[global as int]@.len() == start[global as int].len());
            }
            let ghost before = trees(self.figures@);
            let done = self.figures[global].load_state(&actor.moved_edges);
            proof {
                assert(done is Ok);
                assert(trees(self.figures@) =~= before.update(
                    global as int,
                    reposed(before[global as int], actors[a as int].moved_edges),
                ));
            }
            a += 1;
        }
        proof {
            lemma_loaded(start, actors, n as nat);
            assert forall|g: int| 0 <= g < self.figures@.len() implies well_formed(
                #[trigger] self.figures@[g]@,
            ) by {
                assert(trees(self.figures@)[g] == self.figures@[g]@);
            }
        }
    }
}

} // verus!
