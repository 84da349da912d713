//! One segment of a figure: a line or a circle between two points, hung on
//! a parent segment or free as a root.

use crate::maths::{clamp, clamp_coord, distance, Vector2, LIMIT};
use vstd::prelude::*;

verus! {

/// The parent index of a segment that has no parent.
pub const ROOT: isize = -1;

/// How close, in thousandths, the pointer must be to a point to grab it.
pub const PICK_RADIUS: i64 = 5000;

/// How a segment is drawn.
#[derive(Debug, Clone, Copy, PartialEq, Eq, Structural)]
pub enum EdgeFormat {
    LINE,
    CIRCLE,
}

impl EdgeFormat {
    /// The format a numeric code stands for: 2 is a circle, anything else a
    /// line.
    pub open spec fn of_code(value: int) -> EdgeFormat {
        if value == 2 {
            EdgeFormat::CIRCLE
        } else {
            EdgeFormat::LINE
        }
    }

    /// The numeric code of a format: 1 for a line, 2 for a circle.
    pub open spec fn spec_code(self) -> int {
        match self {
            EdgeFormat::LINE => 1,
            EdgeFormat::CIRCLE => 2,
        }
    }

    /// The numeric code of this format.
    pub fn code(self) -> (c: isize)
        ensures
            c == self.spec_code(),
    {
        match self {
            EdgeFormat::LINE => 1,
            EdgeFormat::CIRCLE => 2,
        }
    }

    /// The other format.
    pub open spec fn spec_toggled(self) -> EdgeFormat {
        match self {
            EdgeFormat::LINE => EdgeFormat::CIRCLE,
            EdgeFormat::CIRCLE => EdgeFormat::LINE,
        }
    }

    /// The other format.
    pub fn toggled(self) -> (f: EdgeFormat)
        ensures
            f == self.spec_toggled(),
    {
        match self {
            EdgeFormat::LINE => EdgeFormat::CIRCLE,
            EdgeFormat::CIRCLE => EdgeFormat::LINE,
        }
    }
}

impl From<isize> for EdgeFormat {
    fn from(value: isize) -> (f: EdgeFormat) {
        if value == 2 {
            EdgeFormat::CIRCLE
        } else {
            EdgeFormat::LINE
        }
    }
}

impl vstd::std_specs::convert::FromSpecImpl<isize> for EdgeFormat {
    open spec fn obeys_from_spec() -> bool {
        true
    }

    open spec fn from_spec(value: isize) -> EdgeFormat {
        EdgeFormat::of_code(value as int)
    }
}

/// What is drawn besides the segments themselves.
#[derive(Debug, Clone, Copy, PartialEq, Eq, Structural)]
pub struct EdgeDrawOption {
    /// Whether the grab points are shown.
    pub point: bool,
}

impl EdgeDrawOption {
    pub fn new() -> (o: EdgeDrawOption)
        ensures
            o.point,
    {
        EdgeDrawOption { point: true }
    }
}

/// A segment of a figure.
///
/// The orientation frozen at the last commit is held as an offset, from
/// start to end, rather than as a number of radians; so is the turn that a
/// commit made.
#[derive(Debug, Clone, Copy, PartialEq, Eq, Structural)]
pub struct Edge {
    pub start: Vector2,
    pub end: Vector2,
    /// The start point is grabbed.
    pub pressed_start: bool,
    /// The end point is grabbed.
    pub pressed_end: bool,
    /// The length the segment keeps while it turns.
    pub width: i64,
    /// The segment turned during this update, by itself or with its parent.
    pub moved: bool,
    /// The offset from start to end when the orientation was last committed.
    pub fixed_angle: Vector2,
    /// By how much the last commit changed `fixed_angle`; zero except right
    /// after a commit.
    pub moved_angle: Vector2,
    /// The index of the parent segment, or [`ROOT`].
    pub parent: isize,
    pub format: EdgeFormat,
}

/// What the pointer does during one update.
#[derive(Debug, Clone, Copy, PartialEq, Eq, Structural)]
pub struct Pointer {
    /// Where the pointer is.
    pub position: Vector2,
    /// Whether its button is held down.
    pub down: bool,
}

/// Along what a segment is to be laid from its start point, once an update
/// has settled where that start point is. The library decides this; turning
/// it into an offset of the segment's length takes trigonometry, which the
/// caller does, and hands the offset to [`Edge::lay`].
#[derive(Debug, Clone, Copy, PartialEq, Eq, Structural)]
pub enum Aim {
    /// The end point stays where it is.
    Keep,
    /// Along `direction`, which is an offset of any length.
    Along { direction: Vector2 },
    /// Along the segment's committed orientation, turned by as much as the
    /// parent has turned away from its own committed orientation.
    Turned { parent_now: Vector2, parent_fixed: Vector2, own_fixed: Vector2 },
}

/// What one update makes of a segment and of the two flags that the
/// segments of a figure share.
pub struct Ticked {
    pub edge: Edge,
    /// Some point of the figure is grabbed.
    pub point_pressed: bool,
    /// The grabbed point is the start of a root.
    pub pressed_root: bool,
    pub aim: Aim,
}

/// Whether the pointer is close enough to `point` to grab it.
pub open spec fn grabs(pointer: Vector2, point: Vector2) -> bool {
    crate::maths::distance_sq(pointer, point) <= PICK_RADIUS * PICK_RADIUS
}

/// The difference of two offsets.
pub open spec fn turn(from: Vector2, to: Vector2) -> Vector2 {
    Vector2 { x: (to.x - from.x) as i64, y: (to.y - from.y) as i64 }
}

/// The segment after the grabbing part of an update. The end point is
/// grabbed if the pointer is on it and nothing is grabbed yet; the start
/// point of a root is grabbed if the pointer is on it and nothing is
/// grabbed yet, or what is grabbed is the start of a root.
pub open spec fn grabbed(edge: Edge, pointer: Vector2, point_pressed: bool, pressed_root: bool) -> Ticked {
    let on_end = grabs(pointer, edge.end) && !point_pressed;
    let pressed_after_end = point_pressed || on_end;
    let on_start = grabs(pointer, edge.start) && edge.parent == -1 && (!pressed_after_end
        || pressed_root);
    Ticked {
        edge: Edge {
            moved: false,
            moved_angle: Vector2 { x: 0, y: 0 },
            pressed_end: edge.pressed_end || on_end,
            pressed_start: edge.pressed_start || on_start,
            ..edge
        },
        point_pressed: pressed_after_end || on_start,
        pressed_root: pressed_root || on_start,
        aim: Aim::Keep,
    }
}

/// The segment after the dragging part of an update, which runs while the
/// button is down. A segment with a parent starts where its parent ends,
/// and is laid along its own direction, or, if the parent turned during
/// this update, along its committed orientation turned with the parent. A
/// root whose start is grabbed starts at the pointer and keeps its
/// direction. A segment whose end is grabbed is laid toward the pointer.
pub open spec fn dragged(edge: Edge, pointer: Vector2, parent: Option<Edge>) -> (Edge, Aim) {
    let own = offset(edge.start, edge.end);
    let (first, first_aim) = match parent {
        Some(p) => (
            Edge { start: p.end, moved: edge.moved || p.moved, ..edge },
            if p.moved {
                Aim::Turned {
                    parent_now: offset(p.start, p.end),
                    parent_fixed: p.fixed_angle,
                    own_fixed: edge.fixed_angle,
                }
            } else {
                Aim::Along { direction: own }
            },
        ),
        None => (edge, Aim::Keep),
    };
    let (second, second_aim) = if first.pressed_start && first.parent < 0 {
        (Edge { start: pointer, ..first }, Aim::Along { direction: offset(first.start, first.end) })
    } else {
        (first, first_aim)
    };
    if second.pressed_end {
        (Edge { moved: true, ..second }, Aim::Along { direction: offset(second.start, pointer) })
    } else {
        (second, second_aim)
    }
}

/// The segment after the committing part of an update, which runs while
/// the button is up. A segment whose end was grabbed, or whose parent has
/// just committed a turn, takes its committed orientation from where it
/// lies, and remembers by how much that changed it. Nothing stays grabbed.
pub open spec fn committed(edge: Edge, parent: Option<Edge>) -> Edge {
    let parent_turned = match parent {
        Some(p) => p.moved_angle != (Vector2 { x: 0, y: 0 }),
        None => false,
    };
    let lies = offset(edge.start, edge.end);
    if edge.pressed_end || parent_turned {
        Edge {
            fixed_angle: lies,
            moved_angle: turn(edge.fixed_angle, lies),
            pressed_end: false,
            pressed_start: false,
            ..edge
        }
    } else {
        Edge { pressed_end: false, pressed_start: false, ..edge }
    }
}

/// What one update makes of a segment: see [`grabbed`], [`dragged`] and
/// [`committed`].
pub open spec fn ticked(
    edge: Edge,
    pointer: Pointer,
    parent: Option<Edge>,
    point_pressed: bool,
    pressed_root: bool,
) -> Ticked {
    let held = grabbed(edge, pointer.position, point_pressed, pressed_root);
    if pointer.down {
        let (laid, aim) = dragged(held.edge, pointer.position, parent);
        Ticked { edge: laid, aim, ..held }
    } else {
        Ticked {
            edge: committed(held.edge, parent),
            point_pressed: false,
            pressed_root: false,
            aim: Aim::Keep,
        }
    }
}

/// The parent of `edge` among `tree`, if it has one there.
pub open spec fn parent_in(edge: Edge, tree: Seq<Edge>) -> Option<Edge> {
    if 0 <= edge.parent < tree.len() {
        Some(tree[edge.parent as int])
    } else {
        None
    }
}

/// The offset from `from` to `to`.
pub open spec fn offset(from: Vector2, to: Vector2) -> Vector2 {
    Vector2 { x: (to.x - from.x) as i64, y: (to.y - from.y) as i64 }
}

/// `at` moved by `by`, each coordinate clamped into the coordinate bounds.
pub open spec fn shifted(at: Vector2, by: Vector2) -> Vector2 {
    Vector2 { x: clamp(at.x + by.x) as i64, y: clamp(at.y + by.y) as i64 }
}

/// An offset between two points that are both in bounds.
pub open spec fn offset_in_bounds(v: Vector2) -> bool {
    -2 * LIMIT <= v.x <= 2 * LIMIT && -2 * LIMIT <= v.y <= 2 * LIMIT
}

/// `c` clamped into the coordinate bounds.
pub fn clamp_wide(c: i128) -> (r: i64)
    ensures
        r == clamp(c as int),
        crate::maths::coord_in_bounds(r as int),
{
    if c < -(LIMIT as i128) {
        -LIMIT
    } else if c > LIMIT as i128 {
        LIMIT
    } else {
        c as i64
    }
}

/// `at` moved by `by`, each coordinate clamped into the coordinate bounds.
pub fn shift(at: Vector2, by: Vector2) -> (moved: Vector2)
    ensures
        moved == shifted(at, by),
        moved.in_bounds(),
{
    Vector2 {
        x: clamp_wide(at.x as i128 + by.x as i128),
        y: clamp_wide(at.y as i128 + by.y as i128),
    }
}

impl Edge {
    /// The segment's points lie in the coordinate bounds and its committed
    /// orientation is an offset between two such points.
    pub open spec fn in_bounds(self) -> bool {
        self.start.in_bounds() && self.end.in_bounds() && offset_in_bounds(self.fixed_angle)
    }

    /// The cached length and the committed orientation agree with the two
    /// points.
    pub open spec fn settled(self) -> bool {
        self.width == distance(self.start, self.end) && self.fixed_angle == offset(
            self.start,
            self.end,
        )
    }

    /// Where the end point lies when the committed orientation is laid from
    /// the current start point.
    pub open spec fn real_end(self) -> Vector2 {
        shifted(self.start, self.fixed_angle)
    }

    /// This segment with its two points replaced and its length and
    /// orientation taken from them.
    pub open spec fn posed(self, start: Vector2, end: Vector2) -> Edge {
        Edge {
            start,
            end,
            width: distance(start, end) as i64,
            fixed_angle: offset(start, end),
            ..self
        }
    }

    /// A segment from `start` to `end` that nothing has grabbed or moved.
    pub open spec fn fresh(start: Vector2, end: Vector2, parent: isize, format: EdgeFormat) -> Edge {
        Edge {
            start,
            end,
            parent,
            format,
            pressed_start: false,
            pressed_end: false,
            moved: false,
            moved_angle: Vector2 { x: 0, y: 0 },
            fixed_angle: offset(start, end),
            width: distance(start, end) as i64,
        }
    }

    /// A segment from `start` to `end` that nothing has grabbed or moved.
    /// `typ` is 1 for a line and 2 for a circle.
    pub fn new(start: Vector2, end: Vector2, parent: isize, typ: isize) -> (e: Edge)
        requires
            start.in_bounds(),
            end.in_bounds(),
        ensures
            e == Edge::fresh(start, end, parent, EdgeFormat::of_code(typ as int)),
            e.settled(),
            e.in_bounds(),
    {
        Edge {
            start,
            end,
            parent,
            format: EdgeFormat::from(typ),
            pressed_start: false,
            pressed_end: false,
            moved: false,
            moved_angle: Vector2 { x: 0, y: 0 },
            fixed_angle: Vector2 { x: end.x - start.x, y: end.y - start.y },
            width: start.distance_to(end),
        }
    }

    /// Whether the segment's points and committed orientation are in bounds.
    pub fn is_in_bounds(&self) -> (b: bool)
        ensures
            b == self.in_bounds(),
    {
        self.start.is_in_bounds() && self.end.is_in_bounds() && -2 * LIMIT <= self.fixed_angle.x
            && self.fixed_angle.x <= 2 * LIMIT && -2 * LIMIT <= self.fixed_angle.y
            && self.fixed_angle.y <= 2 * LIMIT
    }

    /// Where the end point lies when the committed orientation is laid from
    /// the current start point.
    pub fn get_real_end(&self) -> (p: Vector2)
        requires
            self.in_bounds(),
        ensures
            p == self.real_end(),
            p.in_bounds(),
    {
        Vector2 {
            x: clamp_coord(self.start.x + self.fixed_angle.x),
            y: clamp_coord(self.start.y + self.fixed_angle.y),
        }
    }

    /// One update of this segment: grabbing, then dragging or committing.
    /// `line_tree` holds the figure's segments, the parent of this one as
    /// this update has already left it; the two flags are shared by all
    /// segments of the figure. Returns along what the segment is to be laid
    /// from its start point; the end point itself is not moved here.
    pub fn update(
        &mut self,
        pointer: Pointer,
        line_tree: &Vec<Edge>,
        point_pressed: &mut bool,
        pressed_root: &mut bool,
    ) -> (aim: Aim)
        requires
            old(self).in_bounds(),
            pointer.position.in_bounds(),
            old(self).parent < line_tree@.len(),
            old(self).parent >= 0 ==> line_tree@[old(self).parent as int].in_bounds(),
        ensures
            ({
                let after = ticked(
                    *old(self),
                    pointer,
                    parent_in(*old(self), line_tree@),
                    *old(point_pressed),
                    *old(pressed_root),
                );
                &&& *final(self) == after.edge
                &&& *final(point_pressed) == after.point_pressed
                &&& *final(pressed_root) == after.pressed_root
                &&& aim == after.aim
            }),
            final(self).in_bounds(),
    {
        let mouse = pointer.position;
        let mut aim = Aim::Keep;
        self.moved = false;
        self.moved_angle = Vector2 { x: 0, y: 0 };
        if mouse.within(self.end, PICK_RADIUS) && !*point_pressed {
            self.pressed_end = true;
            *point_pressed = true;
        }
        if mouse.within(self.start, PICK_RADIUS) && self.parent == -1 && (!*point_pressed
            || *pressed_root) {
            self.pressed_start = true;
            *point_pressed = true;
            *pressed_root = true;
        }
        proof {
            assert(PICK_RADIUS * PICK_RADIUS == 25_000_000) by (nonlinear_arith)
                requires
                    PICK_RADIUS == 5000,
            ;
            let held = grabbed(*old(self), mouse, *old(point_pressed), *old(pressed_root));
            assert(*self == held.edge);
            assert(*point_pressed == held.point_pressed);
            assert(*pressed_root == held.pressed_root);
        }
        if pointer.down {
            if self.parent >= 0 {
                let parent: Edge = line_tree[self.parent as usize];
                if parent.moved {
                    self.moved = true;
                    aim =
                    Aim::Turned {
                        parent_now: Vector2 {
                            x: parent.end.x - parent.start.x,
                            y: parent.end.y - parent.start.y,
                        },
                        parent_fixed: parent.fixed_angle,
                        own_fixed: self.fixed_angle,
                    };
                } else {
                    aim =
                    Aim::Along {
                        direction: Vector2 {
                            x: self.end.x - self.start.x,
                            y: self.end.y - self.start.y,
                        },
                    };
                }
                self.start = parent.end;
            }
            if self.pressed_start && self.parent < 0 {
                aim =
                Aim::Along {
                    direction: Vector2 { x: self.end.x - self.start.x, y: self.end.y - self.start.y },
                };
                self.start = mouse;
            }
            if self.pressed_end {
                self.moved = true;
                aim =
                Aim::Along {
                    direction: Vector2 { x: mouse.x - self.start.x, y: mouse.y - self.start.y },
                };
            }
        } else {
            let lies = Vector2 { x: self.end.x - self.start.x, y: self.end.y - self.start.y };
            let mut parent_turned = false;
            if self.parent >= 0 {
                let parent: Edge = line_tree[self.parent as usize];
                parent_turned = parent.moved_angle.x != 0 || parent.moved_angle.y != 0;
            }
            if self.pressed_end || parent_turned {
                let before = self.fixed_angle;
                self.fixed_angle = lies;
                self.moved_angle = Vector2 { x: lies.x - before.x, y: lies.y - before.y };
            }
            self.pressed_end = false;
            self.pressed_start = false;
            *point_pressed = false;
            *pressed_root = false;
        }
        aim
    }

    /// Lays the segment from its start point along `by`: the end point is
    /// the start point moved by `by`, clamped into the coordinate bounds.
    pub fn lay(&mut self, by: Vector2)
        requires
            old(self).in_bounds(),
        ensures
            *final(self) == (Edge { end: shifted(old(self).start, by), ..*old(self) }),
            final(self).in_bounds(),
    {
        let x: i128 = self.start.x as i128 + by.x as i128;
        let y: i128 = self.start.y as i128 + by.y as i128;
        self.end = Vector2 { x: clamp_wide(x), y: clamp_wide(y) };
    }

    /// Takes the length and the committed orientation anew from the two
    /// points.
    pub fn update_angle(&mut self)
        requires
            old(self).start.in_bounds(),
            old(self).end.in_bounds(),
        ensures
            *final(self) == old(self).posed(old(self).start, old(self).end),
            final(self).settled(),
            final(self).in_bounds(),
    {
        self.fixed_angle = Vector2 { x: self.end.x - self.start.x, y: self.end.y - self.start.y };
        self.width = self.start.distance_to(self.end);
    }
}

} // verus!
