//! An animation as stored text.
//!
//! First come the figures, each as the lines of its points, with a line
//! `^` between one figure and the next. Then come the frames. A frame
//! begins with a line `@Frame` and the frame's number; each of its actors
//! begins with a line `^` and the place of its figure, followed by one line
//! `x1,y1,x2,y2` for each segment of the figure in storage order, as many
//! as the frame has a pose for. A segment without a line lies in a frame as
//! it lay in the frame before.

use crate::animation::frame::{trees, ActorView, FigureAnimation, Frame, FrameView};
use crate::animation::{frame_views, lemma_fits_same_lengths, Animation};
use crate::archives::text::{
    coordinate_of, count_of, decimal_repr, nat_text, parse_decimal, parse_unsigned, pieces,
    push_decimal, push_nat, split, split_bytes,
};
use crate::archives::{
    decode, decoded, encode, encoded, figure_points, is_skipped, parse_row, points_edges,
    points_in_bounds, points_of, points_text, points_to_figure, push_point, row_point, skips,
    ArchiveError, FileEncoding, Point,
};
use crate::figure::edge::{shift, shifted, Edge};
use crate::figure::pose::{listed, PoseSnapshot};
use crate::figure::{centered, resorted, scanned, well_formed, Figure};
use crate::maths::Vector2;
use vstd::prelude::*;

verus! {

/// What a line of the frames part says.
#[derive(Clone, Copy, Debug, PartialEq, Eq, Structural)]
pub enum Mark {
    /// A frame begins.
    Frame,
    /// An actor begins; it plays the figure at this place.
    Actor(usize),
    /// The next segment of the actor's figure lies between these points.
    Pose(Vector2, Vector2),
    /// Nothing: the line is empty or a remark.
    Blank,
}

/// The line begins a frame: it starts with `@Frame`.
pub open spec fn is_frame_row(row: Seq<u8>) -> bool {
    row.len() >= 6 && row[0] == 64 && row[1] == 70 && row[2] == 114 && row[3] == 97 && row[4]
        == 109 && row[5] == 101
}

/// The line stands between two figures: it is `^` and nothing else.
pub open spec fn is_divider(row: Seq<u8>) -> bool {
    row.len() == 1 && row[0] == 94
}

/// What a line of the frames part says; `None` if it says nothing that
/// can be read.
pub open spec fn row_mark(row: Seq<u8>) -> Option<Mark> {
    if is_frame_row(row) {
        Some(Mark::Frame)
    } else if row.len() > 0 && row[0] == 94 {
        match count_of(row.drop_first()) {
            Some(global) => Some(Mark::Actor(global)),
            None => None,
        }
    } else if is_skipped(row) {
        Some(Mark::Blank)
    } else {
        let fields = split(row, 44);
        if fields.len() == 4 && coordinate_of(fields[0]).is_some() && coordinate_of(
            fields[1],
        ).is_some() && coordinate_of(fields[2]).is_some() && coordinate_of(fields[3]).is_some() {
            Some(
                Mark::Pose(
                    Vector2 {
                        x: coordinate_of(fields[0]).unwrap(),
                        y: coordinate_of(fields[1]).unwrap(),
                    },
                    Vector2 {
                        x: coordinate_of(fields[2]).unwrap(),
                        y: coordinate_of(fields[3]).unwrap(),
                    },
                ),
            )
        } else {
            None
        }
    }
}

/// Where the frames part begins: at the first line that begins a frame, or
/// at the end if there is none.
pub open spec fn frames_start(rows: Seq<Seq<u8>>) -> int
    decreases rows.len(),
{
    if rows.len() == 0 || is_frame_row(rows[0]) {
        0
    } else {
        1 + frames_start(rows.drop_first())
    }
}

/// The figures read so far, and the points read of the figure that is
/// being read.
pub struct Gathered {
    pub figures: Seq<Seq<Edge>>,
    pub points: Seq<Point>,
}

/// The figures with the figure added that the points make; an error if
/// they make none.
pub open spec fn gathered_close(g: Gathered) -> Result<Gathered, ArchiveError> {
    if g.points.len() > isize::MAX {
        Err(ArchiveError::ParseError)
    } else {
        match points_edges(g.points, g.points.len()) {
            Some(edges) => Ok(
                Gathered { figures: g.figures.push(resorted(edges)), points: Seq::empty() },
            ),
            None => Err(ArchiveError::InvalidIndex),
        }
    }
}

/// What one more line of the figures part adds.
pub open spec fn gather_step(g: Gathered, row: Seq<u8>) -> Result<Gathered, ArchiveError> {
    if is_divider(row) {
        gathered_close(g)
    } else if is_skipped(row) {
        Ok(g)
    } else {
        match row_point(row) {
            Some(point) => Ok(Gathered { points: g.points.push(point), ..g }),
            None => Err(ArchiveError::ParseError),
        }
    }
}

/// What the first `k` lines of the figures part give.
pub open spec fn gather(rows: Seq<Seq<u8>>, k: nat) -> Result<Gathered, ArchiveError>
    decreases k,
{
    if k == 0 || k > rows.len() {
        Ok(Gathered { figures: Seq::empty(), points: Seq::empty() })
    } else {
        match gather(rows, (k - 1) as nat) {
            Ok(g) => gather_step(g, rows[k - 1]),
            Err(e) => Err(e),
        }
    }
}

/// The figures that the lines of the figures part store.
pub open spec fn rows_figures(rows: Seq<Seq<u8>>) -> Result<Seq<Seq<Edge>>, ArchiveError> {
    match gather(rows, rows.len()) {
        Ok(g) => match gathered_close(g) {
            Ok(closed) => Ok(closed.figures),
            Err(e) => Err(e),
        },
        Err(e) => Err(e),
    }
}

/// What has been read of the frames part: the figures as the lines read so
/// far have laid them, the frames that are done, and of the frame being
/// read the places of its actors' figures and how many lines the last
/// actor has had.
pub struct Replay {
    pub figures: Seq<Seq<Edge>>,
    pub frames: Seq<FrameView>,
    pub open: bool,
    pub actors: Seq<usize>,
    pub count: nat,
}

/// The frame of the given actors, each in the pose that its figure has.
pub open spec fn frame_of(actors: Seq<usize>, figures: Seq<Seq<Edge>>) -> FrameView {
    FrameView {
        actors: Seq::new(
            actors.len(),
            |a: int|
                ActorView {
                    global_index: actors[a],
                    local_index: a as usize,
                    moved_edges: scanned(figures[actors[a] as int]),
                },
        ),
        is_selected: false,
    }
}

/// The frame being read is done: it joins the frames.
pub open spec fn replay_close(r: Replay) -> Replay {
    if r.open {
        Replay {
            frames: r.frames.push(frame_of(r.actors, r.figures)),
            open: false,
            actors: Seq::empty(),
            count: 0,
            ..r
        }
    } else {
        r
    }
}

/// What one more line of the frames part does. Every point read is moved
/// by `center`.
pub open spec fn replay_step(r: Replay, mark: Mark, center: Vector2) -> Result<
    Replay,
    ArchiveError,
> {
    match mark {
        Mark::Blank => Ok(r),
        Mark::Frame => Ok(Replay { open: true, ..replay_close(r) }),
        Mark::Actor(global) => if !r.open {
            Err(ArchiveError::ParseError)
        } else if global >= r.figures.len() {
            Err(ArchiveError::InvalidIndex)
        } else {
            Ok(Replay { actors: r.actors.push(global), count: 0, ..r })
        },
        Mark::Pose(start, end) => if !r.open || r.actors.len() == 0 {
            Err(ArchiveError::ParseError)
        } else {
            let global = r.actors.last() as int;
            if r.count >= r.figures[global].len() {
                Err(ArchiveError::InvalidIndex)
            } else {
                Ok(
                    Replay {
                        figures: r.figures.update(
                            global,
                            r.figures[global].update(
                                r.count as int,
                                r.figures[global][r.count as int].posed(
                                    shifted(start, center),
                                    shifted(end, center),
                                ),
                            ),
                        ),
                        count: r.count + 1,
                        ..r
                    },
                )
            }
        },
    }
}

/// What the first `k` lines of the frames part do to the figures.
pub open spec fn replay(figures: Seq<Seq<Edge>>, rows: Seq<Seq<u8>>, k: nat, center: Vector2) -> Result<
    Replay,
    ArchiveError,
>
    decreases k,
{
    if k == 0 || k > rows.len() {
        Ok(Replay { figures, frames: Seq::empty(), open: false, actors: Seq::empty(), count: 0 })
    } else {
        match replay(figures, rows, (k - 1) as nat, center) {
            Ok(r) => match row_mark(rows[k - 1]) {
                Some(mark) => replay_step(r, mark, center),
                None => Err(ArchiveError::ParseError),
            },
            Err(e) => Err(e),
        }
    }
}

/// The frames of a stored animation and the figures in the poses of the
/// last frame. An animation without a stored frame has one frame without
/// actors. The last frame is the selected one.
pub struct Stored {
    pub figures: Seq<Seq<Edge>>,
    pub frames: Seq<FrameView>,
}

/// The frames with the last one selected.
pub open spec fn last_selected(frames: Seq<FrameView>) -> Seq<FrameView> {
    if frames.len() == 0 {
        seq![FrameView { actors: Seq::empty(), is_selected: true }]
    } else {
        frames.update(frames.len() - 1, FrameView { is_selected: true, ..frames.last() })
    }
}

/// What a text stores: see the head of this file. `center` is added to
/// every point of every pose.
pub open spec fn text_stored(raw: Seq<u8>, center: Vector2) -> Result<Stored, ArchiveError> {
    let rows = split(raw, 10);
    let head = frames_start(rows);
    match rows_figures(rows.take(head)) {
        Err(e) => Err(e),
        Ok(figures) => match replay(figures, rows.skip(head), (rows.len() - head) as nat, center) {
            Err(e) => Err(e),
            Ok(r) => Ok(
                Stored {
                    figures: replay_close(r).figures,
                    frames: last_selected(replay_close(r).frames),
                },
            ),
        },
    }
}

/// Once lines of the figures part have failed, more lines do not mend it.
pub proof fn lemma_gather_err(rows: Seq<Seq<u8>>, k: nat, n: nat)
    requires
        k <= n <= rows.len(),
        gather(rows, k).is_err(),
    ensures
        gather(rows, n) == gather(rows, k),
    decreases n - k,
{
    if k < n {
        lemma_gather_err(rows, k, (n - 1) as nat);
    }
}

/// Once lines of the frames part have failed, more lines do not mend it.
pub proof fn lemma_replay_err(
    figures: Seq<Seq<Edge>>,
    rows: Seq<Seq<u8>>,
    k: nat,
    n: nat,
    center: Vector2,
)
    requires
        k <= n <= rows.len(),
        replay(figures, rows, k, center).is_err(),
    ensures
        replay(figures, rows, n, center) == replay(figures, rows, k, center),
    decreases n - k,
{
    if k < n {
        lemma_replay_err(figures, rows, k, (n - 1) as nat, center);
    }
}

/// Whether a line begins a frame.
pub fn begins_frame(row: &[u8]) -> (b: bool)
    ensures
        b == is_frame_row(row@),
{
    row.len() >= 6 && row[0] == 64 && row[1] == 70 && row[2] == 114 && row[3] == 97 && row[4]
        == 109 && row[5] == 101
}

/// Reads a line of the frames part.
pub fn parse_mark(row: &[u8]) -> (mark: Option<Mark>)
    ensures
        mark == row_mark(row@),
        mark matches Some(Mark::Pose(start, end)) ==> start.in_bounds() && end.in_bounds(),
{
    if begins_frame(row) {
        return Some(Mark::Frame);
    }
    if row.len() > 0 && row[0] == 94 {
        let rest = crate::archives::text::copy_range(row, 1, row.len());
        assert(rest@ == row@.drop_first());
        return match parse_unsigned(rest.as_slice()) {
            Some(global) => Some(Mark::Actor(global)),
            None => None,
        };
    }
    if skips(row) {
        return Some(Mark::Blank);
    }
    let fields = split_bytes(row, 44);
    if fields.len() != 4 {
        return None;
    }
    assert(pieces(fields@)[0] == fields@[0]@);
    assert(pieces(fields@)[1] == fields@[1]@);
    assert(pieces(fields@)[2] == fields@[2]@);
    assert(pieces(fields@)[3] == fields@[3]@);
    let x1 = match parse_decimal(fields[0].as_slice()) {
        Some(v) => v,
        None => {
            return None;
        },
    };
    let y1 = match parse_decimal(fields[1].as_slice()) {
        Some(v) => v,
        None => {
            return None;
        },
    };
    let x2 = match parse_decimal(fields[2].as_slice()) {
        Some(v) => v,
        None => {
            return None;
        },
    };
    let y2 = match parse_decimal(fields[3].as_slice()) {
        Some(v) => v,
        None => {
            return None;
        },
    };
    Some(Mark::Pose(Vector2 { x: x1, y: y1 }, Vector2 { x: x2, y: y2 }))
}

/// Where the frames part begins among the lines.
pub fn find_frames(rows: &Vec<Vec<u8>>) -> (head: usize)
    ensures
        head == frames_start(pieces(rows@)),
        head <= rows@.len(),
{
    let mut head: usize = 0;
    assert(pieces(rows@).skip(0) == pieces(rows@));
    while head < rows.len() && !begins_frame(rows[head].as_slice())
        invariant
            head <= rows@.len(),
            frames_start(pieces(rows@)) == head + frames_start(pieces(rows@).skip(head as int)),
        decreases rows@.len() - head,
    {
        proof {
            let rest = pieces(rows@).skip(head as int);
            assert(rest[0] == rows@[head as int]@);
            assert(rest.drop_first() == pieces(rows@).skip(head + 1));
        }
        head += 1;
    }
    proof {
        let rest = pieces(rows@).skip(head as int);
        if head < rows@.len() {
            assert(rest[0] == rows@[head as int]@);
        }
        assert(pieces(rows@).skip(0) == pieces(rows@));
    }
    head
}

/// The figures are fresh from their stored points: well-formed, and with
/// nothing grabbed or pending.
pub open spec fn figures_fresh(figures: Seq<Figure>) -> bool {
    forall|g: int|
        0 <= g < figures.len() ==> {
            &&& well_formed((#[trigger] figures[g])@)
            &&& figures[g].should_update
            &&& figures[g].draw_option.point
            &&& figures[g].selected.is_none()
            &&& figures[g].tmp_edge.is_none()
            &&& !figures[g].pressed
            &&& !figures[g].presset_root
        }
}

/// Reads the figures part: the lines before `head`.
pub fn read_figures(rows: &Vec<Vec<u8>>, head: usize) -> (read: Result<Vec<Figure>, ArchiveError>)
    requires
        head <= rows@.len(),
    ensures
        match read {
            Ok(figures) => rows_figures(pieces(rows@).take(head as int)) == Ok::<
                Seq<Seq<Edge>>,
                ArchiveError,
            >(trees(figures@)) && figures_fresh(figures@),
            Err(e) => rows_figures(pieces(rows@).take(head as int)) == Err::<
                Seq<Seq<Edge>>,
                ArchiveError,
            >(e),
        },
{
    let ghost part = pieces(rows@).take(head as int);
    let mut figures: Vec<Figure> = Vec::new();
    let mut points: Vec<Point> = Vec::new();
    let mut k: usize = 0;
    assert(trees(figures@) =~= Seq::<Seq<Edge>>::empty());
    while k < head
        invariant
            k <= head <= rows@.len(),
            part == pieces(rows@).take(head as int),
            gather(part, k as nat) == Ok::<Gathered, ArchiveError>(
                Gathered { figures: trees(figures@), points: points@ },
            ),
            points_in_bounds(points@),
            figures_fresh(figures@),
        decreases head - k,
    {
        let row = rows[k].as_slice();
        assert(part[k as int] == row@);
        let ghost before = Gathered { figures: trees(figures@), points: points@ };
        if row.len() == 1 && row[0] == 94 {
            if points.len() > isize::MAX as usize {
                proof {
                    lemma_gather_err(part, (k + 1) as nat, head as nat);
                }
                return Err(ArchiveError::ParseError);
            }
            match points_to_figure(&points) {
                Ok(figure) => {
                    let ghost was = figures@;
                    figures.push(figure);
                    points = Vec::new();
                    proof {
                        assert(trees(figures@) =~= trees(was).push(figure@));
                    }
                },
                Err(_) => {
                    proof {
                        lemma_gather_err(part, (k + 1) as nat, head as nat);
                    }
                    return Err(ArchiveError::InvalidIndex);
                },
            }
        } else if !skips(row) {
            match parse_row(row) {
                Some(point) => {
                    points.push(point);
                },
                None => {
                    proof {
                        lemma_gather_err(part, (k + 1) as nat, head as nat);
                    }
                    return Err(ArchiveError::ParseError);
                },
            }
        }
        k += 1;
    }
    if points.len() > isize::MAX as usize {
        return Err(ArchiveError::ParseError);
    }
    match points_to_figure(&points) {
        Ok(figure) => {
            let ghost was = figures@;
            figures.push(figure);
            proof {
                assert(trees(figures@) =~= trees(was).push(figure@));
            }
            Ok(figures)
        },
        Err(_) => Err(ArchiveError::InvalidIndex),
    }
}

/// The places of the figures that the actors of a frame play.
pub open spec fn globals(frame: FrameView) -> Seq<usize> {
    Seq::new(frame.actors.len(), |a: int| frame.actors[a].global_index)
}

/// The frame is one that is being read: its actors are numbered in order,
/// each plays one of `count` figures, and none has a pose yet.
pub open spec fn frame_unposed(frame: FrameView, count: int) -> bool {
    &&& !frame.is_selected
    &&& forall|a: int|
        0 <= a < frame.actors.len() ==> {
            &&& (#[trigger] frame.actors[a]).local_index == a
            &&& frame.actors[a].global_index < count
            &&& frame.actors[a].moved_edges == Map::<int, (Vector2, Vector2)>::empty()
        }
}

/// The frames part as far as it has been read.
struct Reader {
    figures: Vec<Figure>,
    frames: Vec<Frame>,
    current: Frame,
    open: bool,
    count: usize,
}

impl Reader {
    /// What has been read, without the storage that holds it.
    spec fn replay(&self) -> Replay {
        Replay {
            figures: trees(self.figures@),
            frames: frame_views(self.frames@),
            open: self.open,
            actors: globals(self.current@),
            count: self.count as nat,
        }
    }

    /// The reader is sound for figures that began as `start`: the figures
    /// are well-formed and have as many segments as they began with, the
    /// frames that are done fit them, and the frame being read has no pose
    /// yet.
    spec fn inv(&self, start: Seq<Seq<Edge>>) -> bool {
        &&& start.len() == self.figures@.len()
        &&& forall|g: int|
            0 <= g < start.len() ==> (#[trigger] trees(self.figures@)[g]).len() == start[g].len()
        &&& forall|g: int| 0 <= g < self.figures@.len() ==> well_formed(#[trigger] self.figures@[g]@)
        &&& forall|f: int|
            0 <= f < self.frames@.len() ==> crate::animation::frame::frame_fits(
                (#[trigger] self.frames@[f])@,
                start,
            ) && !self.frames@[f].is_selected
        &&& frame_unposed(self.current@, self.figures@.len() as int)
        &&& !self.open ==> self.current@.actors.len() == 0 && self.count == 0
    }

    /// Ends the frame being read, if one is.
    fn close(&mut self, Ghost(start): Ghost<Seq<Seq<Edge>>>)
        requires
            old(self).inv(start),
        ensures
            final(self).inv(start),
            final(self).replay() == replay_close(old(self).replay()),
            final(self).figures == old(self).figures,
    {
        if self.open {
            let ghost unsaved = self.current@;
            proof {
                assert forall|a: int|
                    0 <= a < unsaved.actors.len() implies crate::animation::frame::actor_fits(
                    #[trigger] unsaved.actors[a],
                    trees(self.figures@),
                ) by {}
            }
            self.current.save_state(&self.figures);
            proof {
                assert(self.current@.actors =~= frame_of(
                    globals(unsaved),
                    trees(self.figures@),
                ).actors);
                lemma_fits_same_lengths(self.current@, trees(self.figures@), start);
            }
            let ghost was = self.frames@;
            let mut done = Frame::new();
            core::mem::swap(&mut self.current, &mut done);
            self.frames.push(done);
            self.open = false;
            self.count = 0;
            proof {
                assert(frame_views(self.frames@) =~= frame_views(was).push(
                    frame_of(globals(unsaved), trees(self.figures@)),
                ));
                assert(globals(self.current@) =~= Seq::<usize>::empty());
            }
        }
    }

    /// Begins an actor that plays the figure at `global`.
    fn begin_actor(&mut self, global: usize, Ghost(start): Ghost<Seq<Seq<Edge>>>) -> (done:
        Result<(), ArchiveError>)
        requires
            old(self).inv(start),
        ensures
            match done {
                Ok(()) => final(self).inv(start) && replay_step(
                    old(self).replay(),
                    Mark::Actor(global),
                    Vector2 { x: 0, y: 0 },
                ) == Ok::<Replay, ArchiveError>(final(self).replay()),
                Err(e) => replay_step(old(self).replay(), Mark::Actor(global), Vector2 { x: 0, y: 0 })
                    == Err::<Replay, ArchiveError>(e),
            },
    {
        if !self.open {
            return Err(ArchiveError::ParseError);
        }
        if global >= self.figures.len() {
            return Err(ArchiveError::InvalidIndex);
        }
        let local = self.current.figure_animation.len();
        let ghost was = self.current@;
        self.current.figure_animation.push(
            FigureAnimation { global_index: global, local_index: local, moved_edges: PoseSnapshot::new() },
        );
        self.count = 0;
        proof {
            assert(globals(self.current@) =~= globals(was).push(global));
            assert forall|a: int| 0 <= a < self.current@.actors.len() implies {
                &&& (#[trigger] self.current@.actors[a]).local_index == a
                &&& self.current@.actors[a].global_index < self.figures@.len()
                &&& self.current@.actors[a].moved_edges == Map::<int, (Vector2, Vector2)>::empty()
            } by {
                if a < was.actors.len() {
                    assert(self.current@.actors[a] == was.actors[a]);
                }
            }
        }
        Ok(())
    }

    /// Lays the next segment of the last actor's figure between the two
    /// points, each moved by `center`.
    fn pose(
        &mut self,
        start_point: Vector2,
        end_point: Vector2,
        center: Vector2,
        Ghost(start): Ghost<Seq<Seq<Edge>>>,
    ) -> (done: Result<(), ArchiveError>)
        requires
            old(self).inv(start),
        ensures
            match done {
                Ok(()) => final(self).inv(start) && replay_step(
                    old(self).replay(),
                    Mark::Pose(start_point, end_point),
                    center,
                ) == Ok::<Replay, ArchiveError>(final(self).replay()),
                Err(e) => replay_step(old(self).replay(), Mark::Pose(start_point, end_point), center)
                    == Err::<Replay, ArchiveError>(e),
            },
    {
        if !self.open || self.current.figure_animation.len() == 0 {
            return Err(ArchiveError::ParseError);
        }
        let last = self.current.figure_animation.len() - 1;
        let global = self.current.figure_animation[last].global_index;
        proof {
            assert(self.current@.actors[last as int].global_index == global);
            assert(globals(self.current@).last() == global);
            assert(trees(self.figures@)[global as int] == self.figures@[global as int]@);
        }
        if self.count >= self.figures[global].len() {
            return Err(ArchiveError::InvalidIndex);
        }
        let ghost was = trees(self.figures@);
        let count = self.count;
        let done = self.figures[global].set_pose(
            count,
            shift(start_point, center),
            shift(end_point, center),
        );
        self.count = count + 1;
        proof {
            assert(trees(self.figures@) =~= was.update(
                global as int,
                was[global as int].update(
                    count as int,
                    was[global as int][count as int].posed(
                        shifted(start_point, center),
                        shifted(end_point, center),
                    ),
                ),
            ));
            assert forall|g: int| 0 <= g < start.len() implies (#[trigger] trees(
                self.figures@,
            )[g]).len() == start[g].len() by {
                assert(was[g].len() == start[g].len());
            }
        }
        Ok(())
    }

    /// Does what a line of the frames part says.
    fn apply(&mut self, mark: Mark, center: Vector2, Ghost(start): Ghost<Seq<Seq<Edge>>>) -> (done:
        Result<(), ArchiveError>)
        requires
            old(self).inv(start),
        ensures
            match done {
                Ok(()) => final(self).inv(start) && replay_step(old(self).replay(), mark, center)
                    == Ok::<Replay, ArchiveError>(final(self).replay()),
                Err(e) => replay_step(old(self).replay(), mark, center) == Err::<
                    Replay,
                    ArchiveError,
                >(e),
            },
    {
        match mark {
            Mark::Blank => Ok(()),
            Mark::Frame => {
                self.close(Ghost(start));
                self.open = true;
                Ok(())
            },
            Mark::Actor(global) => self.begin_actor(global, Ghost(start)),
            Mark::Pose(start_point, end_point) => self.pose(
                start_point,
                end_point,
                center,
                Ghost(start),
            ),
        }
    }

    /// The animation that was read, showing its last frame.
    fn finish(self, Ghost(start): Ghost<Seq<Seq<Edge>>>) -> (animation: Animation)
        requires
            self.inv(start),
        ensures
            animation.wf(),
            trees(animation.figures@) == replay_close(self.replay()).figures,
            frame_views(animation.frames@) == last_selected(replay_close(self.replay()).frames),
            animation.selected_frame == frame_views(animation.frames@).len() - 1,
            animation.previous_time == 0,
            animation.framerate == 5000,
    {
        let mut reader = self;
        reader.close(Ghost(start));
        let Reader { figures, frames, current, open, count } = reader;
        let mut frames = frames;
        let ghost closed = frame_views(frames@);
        let ghost before = frames@;
        if frames.len() == 0 {
            let mut only = Frame::new();
            only.is_selected = true;
            frames.push(only);
            proof {
                assert(only@.actors =~= Seq::<ActorView>::empty());
                assert(frame_views(frames@) =~= last_selected(closed));
            }
        } else {
            let last = frames.len() - 1;
            frames[last].is_selected = true;
            proof {
                assert(frame_views(frames@) =~= last_selected(closed));
            }
        }
        let selected = frames.len() - 1;
        let animation = Animation {
            figures,
            frames,
            selected_frame: selected,
            previous_time: 0,
            framerate: 5000,
        };
        proof {
            assert forall|f: int| 0 <= f < animation.frames@.len() implies crate::animation::frame::frame_fits(
                (#[trigger] animation.frames@[f])@,
                trees(animation.figures@),
            ) && animation.frames@[f].is_selected == (f == animation.selected_frame) by {
                if closed.len() > 0 {
                    assert(animation.frames@[f]@.actors == before[f]@.actors);
                    assert(crate::animation::frame::frame_fits(before[f]@, start));
                    lemma_fits_same_lengths(before[f]@, start, trees(animation.figures@));
                }
            }
        }
        animation
    }
}

/// The lines that store a figure; none for a figure without segments.
pub open spec fn figure_text(tree: Seq<Edge>) -> Seq<u8> {
    if tree.len() == 0 {
        Seq::empty()
    } else {
        let points = figure_points(centered(tree, Vector2 { x: 0, y: 0 }));
        points_text(points, points.len())
    }
}

/// The lines that store the first `k` figures, with a line `^` between
/// one figure and the next.
pub open spec fn figures_text(figures: Seq<Figure>, k: nat) -> Seq<u8>
    decreases k,
{
    if k == 0 || k > figures.len() {
        Seq::empty()
    } else if k == 1 {
        figure_text(figures[0]@)
    } else {
        figures_text(figures, (k - 1) as nat) + seq![94u8, 10u8] + figure_text(figures[k - 1]@)
    }
}

/// The line that stores where a segment lies.
pub open spec fn pose_line(start: Vector2, end: Vector2) -> Seq<u8> {
    decimal_repr(start.x as int) + seq![44u8] + decimal_repr(start.y as int) + seq![44u8]
        + decimal_repr(end.x as int) + seq![44u8] + decimal_repr(end.y as int) + seq![10u8]
}

/// The lines that store the first `k` of the listed poses.
pub open spec fn poses_text(entries: Seq<(usize, Vector2, Vector2)>, k: nat) -> Seq<u8>
    decreases k,
{
    if k == 0 || k > entries.len() {
        Seq::empty()
    } else {
        poses_text(entries, (k - 1) as nat) + pose_line(entries[k - 1].1, entries[k - 1].2)
    }
}

/// The lines that store an actor: the place of its figure behind `^`, then
/// its poses in the order of the segments.
pub open spec fn actor_text(actor: FigureAnimation) -> Seq<u8> {
    let entries = listed(actor.moved_edges.poses@, actor.moved_edges.poses@.len());
    seq![94u8] + nat_text(actor.global_index as nat) + seq![10u8] + poses_text(
        entries,
        entries.len(),
    )
}

/// The lines that store the first `k` actors.
pub open spec fn actors_text(actors: Seq<FigureAnimation>, k: nat) -> Seq<u8>
    decreases k,
{
    if k == 0 || k > actors.len() {
        Seq::empty()
    } else {
        actors_text(actors, (k - 1) as nat) + actor_text(actors[k - 1])
    }
}

/// The line that begins the frame of the given number.
pub open spec fn frame_head(number: nat) -> Seq<u8> {
    seq![64u8, 70u8, 114u8, 97u8, 109u8, 101u8, 32u8] + nat_text(number) + seq![10u8]
}

/// The lines that store the first `k` frames.
pub open spec fn frames_text(frames: Seq<Frame>, k: nat) -> Seq<u8>
    decreases k,
{
    if k == 0 || k > frames.len() {
        Seq::empty()
    } else {
        frames_text(frames, (k - 1) as nat) + frame_head((k - 1) as nat) + actors_text(
            frames[k - 1].figure_animation@,
            frames[k - 1].figure_animation@.len(),
        )
    }
}

/// The text that stores an animation: its figures, then its frames.
pub open spec fn animation_text(animation: Animation) -> Seq<u8> {
    figures_text(animation.figures@, animation.figures@.len()) + frames_text(
        animation.frames@,
        animation.frames@.len(),
    )
}

/// Writes the line that stores where a segment lies at the end of `out`.
pub fn push_pose(out: &mut Vec<u8>, start: Vector2, end: Vector2)
    ensures
        final(out)@ == old(out)@ + pose_line(start, end),
{
    let ghost s0 = out@;
    let ghost l1 = decimal_repr(start.x as int);
    let ghost l2 = l1 + seq![44u8];
    let ghost l3 = l2 + decimal_repr(start.y as int);
    let ghost l4 = l3 + seq![44u8];
    let ghost l5 = l4 + decimal_repr(end.x as int);
    let ghost l6 = l5 + seq![44u8];
    let ghost l7 = l6 + decimal_repr(end.y as int);
    push_decimal(out, start.x);
    out.push(44);
    assert(out@ =~= s0 + l2);
    push_decimal(out, start.y);
    assert(out@ =~= s0 + l3);
    out.push(44);
    assert(out@ =~= s0 + l4);
    push_decimal(out, end.x);
    assert(out@ =~= s0 + l5);
    out.push(44);
    assert(out@ =~= s0 + l6);
    push_decimal(out, end.y);
    assert(out@ =~= s0 + l7);
    out.push(10);
    assert(out@ =~= s0 + (l7 + seq![10u8]));
}

/// Writes the lines that store an actor at the end of `out`.
pub fn push_actor(out: &mut Vec<u8>, actor: &FigureAnimation)
    ensures
        final(out)@ == old(out)@ + actor_text(*actor),
{
    let ghost s0 = out@;
    let entries = actor.moved_edges.entries();
    let ghost head = seq![94u8] + nat_text(actor.global_index as nat) + seq![10u8];
    out.push(94);
    push_nat(out, actor.global_index as u64);
    out.push(10);
    assert(out@ =~= s0 + head);
    let mut k: usize = 0;
    while k < entries.len()
        invariant
            k <= entries.len(),
            out@ == s0 + head + poses_text(entries@, k as nat),
        decreases entries.len() - k,
    {
        let ghost before = poses_text(entries@, k as nat);
        let entry = entries[k];
        push_pose(out, entry.1, entry.2);
        assert(out@ =~= s0 + head + (before + pose_line(entry.1, entry.2)));
        k += 1;
    }
    assert(out@ =~= s0 + (head + poses_text(entries@, entries@.len())));
}

/// Writes the lines that store a frame of the given number at the end of
/// `out`.
pub fn push_frame_text(out: &mut Vec<u8>, frame: &Frame, number: usize)
    ensures
        final(out)@ == old(out)@ + frame_head(number as nat) + actors_text(
            frame.figure_animation@,
            frame.figure_animation@.len(),
        ),
{
    let ghost s0 = out@;
    out.push(64);
    out.push(70);
    out.push(114);
    out.push(97);
    out.push(109);
    out.push(101);
    out.push(32);
    assert(out@ =~= s0 + seq![64u8, 70u8, 114u8, 97u8, 109u8, 101u8, 32u8]);
    push_nat(out, number as u64);
    out.push(10);
    assert(out@ =~= s0 + frame_head(number as nat));
    let ghost s1 = out@;
    let mut a: usize = 0;
    while a < frame.figure_animation.len()
        invariant
            a <= frame.figure_animation.len(),
            out@ == s1 + actors_text(frame.figure_animation@, a as nat),
        decreases frame.figure_animation.len() - a,
    {
        let ghost before = actors_text(frame.figure_animation@, a as nat);
        push_actor(out, &frame.figure_animation[a]);
        assert(out@ =~= s1 + (before + actor_text(frame.figure_animation@[a as int])));
        a += 1;
    }
}

/// Writes the lines that store a figure at the end of `out`.
pub fn push_figure_text(out: &mut Vec<u8>, figure: &Figure)
    requires
        figure.wf(),
    ensures
        final(out)@ == old(out)@ + figure_text(figure@),
{
    if figure.len() == 0 {
        assert(out@ =~= old(out)@ + figure_text(figure@));
        return ;
    }
    let ghost s0 = out@;
    let points = points_of(figure);
    let mut k: usize = 0;
    while k < points.len()
        invariant
            k <= points.len(),
            out@ == s0 + points_text(points@, k as nat),
        decreases points.len() - k,
    {
        let ghost before = points_text(points@, k as nat);
        push_point(out, points[k]);
        assert(out@ =~= s0 + (before + crate::archives::point_line(points@[k as int])));
        k += 1;
    }
}

impl Animation {
    /// Reads a stored animation: see [`text_stored`]. The animation shows
    /// its last frame, and plays five frames per second.
    pub fn from_text(raw: &[u8], center: Vector2) -> (read: Result<Animation, ArchiveError>)
        ensures
            match read {
                Ok(animation) => {
                    &&& text_stored(raw@, center) matches Ok(stored)
                    &&& trees(animation.figures@) == stored.figures
                    &&& frame_views(animation.frames@) == stored.frames
                    &&& animation.selected_frame == stored.frames.len() - 1
                    &&& animation.previous_time == 0
                    &&& animation.framerate == 5000
                    &&& animation.wf()
                },
                Err(e) => text_stored(raw@, center) matches Err(f) && e == f,
            },
    {
        let rows = split_bytes(raw, 10);
        let head = find_frames(&rows);
        let figures = match read_figures(&rows, head) {
            Ok(figures) => figures,
            Err(e) => {
                return Err(e);
            },
        };
        let ghost start = trees(figures@);
        let ghost part = pieces(rows@).skip(head as int);
        let total = rows.len();
        let n = total - head;
        let mut reader = Reader {
            figures,
            frames: Vec::new(),
            current: Frame::new(),
            open: false,
            count: 0,
        };
        let mut k: usize = 0;
        proof {
            assert(frame_views(reader.frames@) =~= Seq::<FrameView>::empty());
            assert(globals(reader.current@) =~= Seq::<usize>::empty());
        }
        while k < n
            invariant
                k <= n,
                total == rows@.len(),
                head <= total,
                n == total - head,
                pieces(rows@) == split(raw@, 10),
                head == frames_start(pieces(rows@)),
                rows_figures(pieces(rows@).take(head as int)) == Ok::<Seq<Seq<Edge>>, ArchiveError>(
                    start,
                ),
                part == pieces(rows@).skip(head as int),
                reader.inv(start),
                replay(start, part, k as nat, center) == Ok::<Replay, ArchiveError>(reader.replay()),
            decreases n - k,
        {
            let at: usize = head + k;
            let row = rows[at].as_slice();
            assert(part[k as int] == row@);
            let mark = match parse_mark(row) {
                Some(mark) => mark,
                None => {
                    proof {
                        lemma_replay_err(start, part, (k + 1) as nat, n as nat, center);
                    }
                    return Err(ArchiveError::ParseError);
                },
            };
            match reader.apply(mark, center, Ghost(start)) {
                Ok(()) => {},
                Err(e) => {
                    proof {
                        lemma_replay_err(start, part, (k + 1) as nat, n as nat, center);
                    }
                    return Err(e);
                },
            }
            k += 1;
        }
        Ok(reader.finish(Ghost(start)))
    }

    /// The text that stores this animation: see [`animation_text`].
    pub fn text(&self) -> (out: Vec<u8>)
        requires
            self.wf(),
        ensures
            out@ == animation_text(*self),
    {
        let mut out: Vec<u8> = Vec::new();
        let mut g: usize = 0;
        while g < self.figures.len()
            invariant
                g <= self.figures.len(),
                self.wf(),
                out@ == figures_text(self.figures@, g as nat),
            decreases self.figures.len() - g,
        {
            let ghost before = out@;
            if g > 0 {
                out.push(94);
                out.push(10);
                assert(out@ =~= before + seq![94u8, 10u8]);
            }
            assert(well_formed(self.figures@[g as int]@));
            push_figure_text(&mut out, &self.figures[g]);
            g += 1;
        }
        let ghost s0 = out@;
        let mut f: usize = 0;
        while f < self.frames.len()
            invariant
                f <= self.frames.len(),
                out@ == s0 + frames_text(self.frames@, f as nat),
            decreases self.frames.len() - f,
        {
            let ghost before = frames_text(self.frames@, f as nat);
            push_frame_text(&mut out, &self.frames[f], f);
            assert(out@ =~= s0 + (before + frame_head(f as nat) + actors_text(
                self.frames@[f as int].figure_animation@,
                self.frames@[f as int].figure_animation@.len(),
            )));
            f += 1;
        }
        out
    }

    /// The bytes that store this animation: its text, packed.
    pub fn save(&self, encoding: FileEncoding) -> (out: Result<Vec<u8>, ArchiveError>)
        requires
            self.wf(),
        ensures
            match out {
                Ok(bytes) => encoded(animation_text(*self), encoding) == Some(bytes@),
                Err(e) => e == ArchiveError::Corrupt && encoded(
                    animation_text(*self),
                    encoding,
                ).is_none(),
            },
    {
        let text = self.text();
        encode(text.as_slice(), encoding)
    }

    /// Unpacks stored bytes and reads the animation they hold: see
    /// [`Animation::from_text`].
    pub fn load(bytes: &[u8], encoding: FileEncoding, center: Vector2) -> (read: Result<
        Animation,
        ArchiveError,
    >)
        ensures
            match read {
                Ok(animation) => {
                    &&& decoded(bytes@, encoding) matches Some(raw)
                    &&& text_stored(raw, center) matches Ok(stored)
                    &&& trees(animation.figures@) == stored.figures
                    &&& frame_views(animation.frames@) == stored.frames
                    &&& animation.selected_frame == stored.frames.len() - 1
                    &&& animation.previous_time == 0
                    &&& animation.framerate == 5000
                    &&& animation.wf()
                },
                Err(e) => match decoded(bytes@, encoding) {
                    Some(raw) => text_stored(raw, center) matches Err(f) && e == f,
                    None => e == ArchiveError::Corrupt,
                },
            },
    {
        match decode(bytes, encoding) {
            Ok(raw) => Animation::from_text(raw.as_slice(), center),
            Err(_) => Err(ArchiveError::Corrupt),
        }
    }
}

} // verus!
