//! A frame: the pose of every actor at one instant of an animation.
//!
//! The figures themselves live in the animation, one for all frames. A
//! frame names its actors by their place there and keeps, for each, the
//! pose that the figure has in this frame.

use crate::figure::pose::PoseSnapshot;
use crate::figure::{scanned, well_formed, Figure};
use crate::maths::Vector2;
use vstd::prelude::*;

verus! {

/// One actor of a frame: a figure of the animation, and its pose in this
/// frame.
#[derive(Debug)]
pub struct FigureAnimation {
    /// The figure's place among the figures of the animation.
    pub global_index: usize,
    /// The actor's place among the actors of its frame.
    pub local_index: usize,
    /// The pose that the figure has in this frame.
    pub moved_edges: PoseSnapshot,
}

/// What an actor is, without the storage that holds it.
pub struct ActorView {
    pub global_index: usize,
    pub local_index: usize,
    pub moved_edges: Map<int, (Vector2, Vector2)>,
}

impl View for FigureAnimation {
    type V = ActorView;

    open spec fn view(&self) -> ActorView {
        ActorView {
            global_index: self.global_index,
            local_index: self.local_index,
            moved_edges: self.moved_edges@,
        }
    }
}

/// A frame of an animation.
#[derive(Debug)]
pub struct Frame {
    pub figure_animation: Vec<FigureAnimation>,
    /// Whether this is the frame being shown and edited.
    pub is_selected: bool,
}

/// What a frame is, without the storage that holds it.
pub struct FrameView {
    pub actors: Seq<ActorView>,
    pub is_selected: bool,
}

/// What each of the actors is.
pub open spec fn actor_views(actors: Seq<FigureAnimation>) -> Seq<ActorView> {
    Seq::new(actors.len(), |i: int| actors[i]@)
}

impl View for Frame {
    type V = FrameView;

    open spec fn view(&self) -> FrameView {
        FrameView { actors: actor_views(self.figure_animation@), is_selected: self.is_selected }
    }
}

/// The pose of every segment of each figure.
pub open spec fn trees(figures: Seq<Figure>) -> Seq<Seq<crate::figure::edge::Edge>> {
    Seq::new(figures.len(), |i: int| figures[i]@)
}

/// The actor names a figure among `figures`, and its pose is in bounds and
/// gives no point to a segment that the figure does not have.
pub open spec fn actor_fits(actor: ActorView, figures: Seq<Seq<crate::figure::edge::Edge>>) -> bool {
    &&& actor.global_index < figures.len()
    &&& forall|i: int| #[trigger]
        actor.moved_edges.contains_key(i) ==> 0 <= i < figures[actor.global_index as int].len()
            && actor.moved_edges[i].0.in_bounds() && actor.moved_edges[i].1.in_bounds()
}

/// Every actor of the frame fits: see [`actor_fits`].
pub open spec fn frame_fits(frame: FrameView, figures: Seq<Seq<crate::figure::edge::Edge>>) -> bool {
    forall|a: int| 0 <= a < frame.actors.len() ==> actor_fits(#[trigger] frame.actors[a], figures)
}

/// The frame with every actor's pose taken anew from its figure.
pub open spec fn saved(frame: FrameView, figures: Seq<Seq<crate::figure::edge::Edge>>) -> FrameView {
    FrameView {
        actors: Seq::new(
            frame.actors.len(),
            |a: int|
                ActorView {
                    moved_edges: scanned(figures[frame.actors[a].global_index as int]),
                    ..frame.actors[a]
                },
        ),
        ..frame
    }
}

/// Whether one of the first `upto` actors of the frame, the one at `skip`
/// left out, plays the figure at `global`.
pub open spec fn played_among(frame: FrameView, upto: int, skip: int, global: int) -> bool {
    exists|a: int|
        0 <= a < upto && a < frame.actors.len() && a != skip && (
        #[trigger] frame.actors[a]).global_index == global
}

/// Whether some actor of the frame other than the one at `index` plays the
/// figure at `global`.
pub open spec fn played_by_other(frame: FrameView, index: int, global: int) -> bool {
    played_among(frame, frame.actors.len() as int, index, global)
}

/// Whether some actor of the frame plays the figure at `global`.
pub open spec fn played(frame: FrameView, global: int) -> bool {
    played_among(frame, frame.actors.len() as int, -1, global)
}

/// One more actor plays what the actors before it play, and its own
/// figure, unless it is the one left out.
pub proof fn lemma_played_among(frame: FrameView, upto: int, skip: int, global: int)
    requires
        0 <= upto < frame.actors.len(),
    ensures
        played_among(frame, upto + 1, skip, global) == (played_among(frame, upto, skip, global) || (
        upto != skip && frame.actors[upto].global_index == global)),
{
    if upto != skip && frame.actors[upto].global_index == global {
        assert(0 <= upto < upto + 1 && upto != skip && frame.actors[upto].global_index == global);
    }
}

/// The figures are the same but for whether the pointer may move them.
pub open spec fn same_but_update(before: Seq<Figure>, after: Seq<Figure>) -> bool {
    &&& after.len() == before.len()
    &&& forall|g: int|
        0 <= g < before.len() ==> {
            &&& (#[trigger] after[g])@ == before[g]@
            &&& after[g].draw_option == before[g].draw_option
            &&& after[g].selected == before[g].selected
            &&& after[g].tmp_edge == before[g].tmp_edge
            &&& after[g].pressed == before[g].pressed
            &&& after[g].presset_root == before[g].presset_root
        }
}

/// A copy of a pose.
pub fn copy_pose(pose: &PoseSnapshot) -> (copy: PoseSnapshot)
    ensures
        copy.poses@ == pose.poses@,
        copy@ == pose@,
{
    let mut poses: Vec<Option<(Vector2, Vector2)>> = Vec::new();
    let mut i: usize = 0;
    while i < pose.poses.len()
        invariant
            i <= pose.poses.len(),
            poses@ == pose.poses@.take(i as int),
        decreases pose.poses.len() - i,
    {
        poses.push(pose.poses[i]);
        assert(poses@ =~= pose.poses@.take(i + 1));
        i += 1;
    }
    assert(pose.poses@.take(pose.poses@.len() as int) == pose.poses@);
    PoseSnapshot { poses }
}

impl Frame {
    /// A frame without actors that is not selected.
    pub fn new() -> (frame: Frame)
        ensures
            frame@.actors.len() == 0,
            !frame.is_selected,
    {
        Frame { figure_animation: Vec::new(), is_selected: false }
    }

    /// A copy of this frame: the same actors in the same poses.
    pub fn clone(&self) -> (copy: Frame)
        ensures
            copy@ == self@,
    {
        let mut actors: Vec<FigureAnimation> = Vec::new();
        let mut i: usize = 0;
        while i < self.figure_animation.len()
            invariant
                i <= self.figure_animation.len(),
                actors@.len() == i,
                forall|a: int| 0 <= a < i ==> (#[trigger] actors@[a])@ == self.figure_animation@[a]@,
            decreases self.figure_animation.len() - i,
        {
            let actor = &self.figure_animation[i];
            actors.push(
                FigureAnimation {
                    global_index: actor.global_index,
                    local_index: actor.local_index,
                    moved_edges: copy_pose(&actor.moved_edges),
                },
            );
            i += 1;
        }
        let copy = Frame { figure_animation: actors, is_selected: self.is_selected };
        assert(copy@.actors =~= self@.actors);
        copy
    }

    /// Stops the pointer from moving any figure of this frame but the one
    /// that the actor at `index` plays.
    pub fn disable_except(&self, figures: &mut Vec<Figure>, index: usize)
        requires
            frame_fits(self@, trees(old(figures)@)),
        ensures
            same_but_update(old(figures)@, final(figures)@),
            forall|g: int|
                0 <= g < old(figures)@.len() ==> (#[trigger] final(figures)@[g]).should_update == (
                old(figures)@[g].should_update && !played_by_other(self@, index as int, g)),
    {
        let n = self.figure_animation.len();
        let mut i: usize = 0;
        while i < n
            invariant
                i <= n,
                n == self.figure_animation@.len(),
                frame_fits(self@, trees(old(figures)@)),
                same_but_update(old(figures)@, figures@),
                forall|g: int|
                    0 <= g < old(figures)@.len() ==> (#[trigger] figures@[g]).should_update == (old(figures)@[g].should_update && !(exists|a: int|
                        0 <= a < i && a != index && (#[trigger] self@.actors[a]).global_index
                            == g)),
            decreases n - i,
        {
            if i != index {
                let global = self.figure_animation[i].global_index;
                assert(self@.actors[i as int].global_index == global);
                assert(actor_fits(self@.actors[i as int], trees(old(figures)@)));
                figures[global].should_update = false;
            }
            proof {
                assert forall|g: int| 0 <= g < old(figures)@.len() implies (
                #[trigger] figures@[g]).should_update == (old(figures)@[g].should_update
                    && !played_among(self@, i + 1, index as int, g)) by {
                    lemma_played_among(self@, i as int, index as int, g);
                }
            }
            i += 1;
        }
    }

    /// Lets the pointer move every figure of this frame again.
    pub fn enable_all(&self, figures: &mut Vec<Figure>)
        requires
            frame_fits(self@, trees(old(figures)@)),
        ensures
            same_but_update(old(figures)@, final(figures)@),
            forall|g: int|
                0 <= g < old(figures)@.len() ==> (#[trigger] final(figures)@[g]).should_update == (
                old(figures)@[g].should_update || played(self@, g)),
    {
        let n = self.figure_animation.len();
        let mut i: usize = 0;
        while i < n
            invariant
                i <= n,
                n == self.figure_animation@.len(),
                frame_fits(self@, trees(old(figures)@)),
                same_but_update(old(figures)@, figures@),
                forall|g: int|
                    0 <= g < old(figures)@.len() ==> (#[trigger] figures@[g]).should_update == (old(figures)@[g].should_update || (exists|a: int|
                        0 <= a < i && (#[trigger] self@.actors[a]).global_index == g)),
            decreases n - i,
        {
            let global = self.figure_animation[i].global_index;
            assert(self@.actors[i as int].global_index == global);
            assert(actor_fits(self@.actors[i as int], trees(old(figures)@)));
            figures[global].should_update = true;
            proof {
                assert forall|g: int| 0 <= g < old(figures)@.len() implies (
                #[trigger] figures@[g]).should_update == (old(figures)@[g].should_update
                    || played_among(self@, i + 1, -1, g)) by {
                    lemma_played_among(self@, i as int, -1, g);
                }
            }
            i += 1;
        }
    }

    /// Takes the pose of every actor anew from its figure.
    pub fn save_state(&mut self, figures: &Vec<Figure>)
        requires
            frame_fits(old(self)@, trees(figures@)),
            forall|g: int| 0 <= g < figures@.len() ==> well_formed(#[trigger] figures@[g]@),
        ensures
            final(self)@ == saved(old(self)@, trees(figures@)),
            frame_fits(final(self)@, trees(figures@)),
    {
        let n = self.figure_animation.len();
        let mut i: usize = 0;
        while i < n
            invariant
                i <= n,
                n == old(self).figure_animation@.len(),
                self.figure_animation@.len() == n,
                self.is_selected == old(self).is_selected,
                frame_fits(old(self)@, trees(figures@)),
                forall|g: int| 0 <= g < figures@.len() ==> well_formed(#[trigger] figures@[g]@),
                forall|a: int|
                    0 <= a < i ==> (#[trigger] self.figure_animation@[a])@ == saved(
                        old(self)@,
                        trees(figures@),
                    ).actors[a],
                forall|a: int|
                    i <= a < n ==> (#[trigger] self.figure_animation@[a])@ == old(self)@.actors[a],
            decreases n - i,
        {
            let global = self.figure_animation[i].global_index;
            assert(old(self)@.actors[i as int] == self.figure_animation@[i as int]@);
            assert(actor_fits(old(self)@.actors[i as int], trees(figures@)));
            let pose = figures[global].scan();
            self.figure_animation[i].moved_edges = pose;
            i += 1;
        }
        proof {
            assert(self@.actors =~= saved(old(self)@, trees(figures@)).actors);
            assert forall|a: int| 0 <= a < self@.actors.len() implies actor_fits(
                #[trigger] self@.actors[a],
                trees(figures@),
            ) by {
                assert(actor_fits(old(self)@.actors[a], trees(figures@)));
                let g = self@.actors[a].global_index as int;
                assert(well_formed(figures@[g]@));
                assert forall|i: int| #[trigger]
                    self@.actors[a].moved_edges.contains_key(i) implies 0 <= i < trees(
                    figures@,
                )[g].len() && self@.actors[a].moved_edges[i].0.in_bounds()
                    && self@.actors[a].moved_edges[i].1.in_bounds() by {
                    assert(figures@[g]@[i].in_bounds());
                }
            }
        }
    }
}

} // verus!
