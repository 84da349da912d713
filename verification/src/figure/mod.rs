//! A figure: segments stored so that every parent comes before its
//! children, with the operations that build, reshape and pose it.

pub mod edge;
pub mod order;
pub mod pose;

use crate::figure::edge::{
    parent_in, shifted, ticked, Aim, Edge, EdgeDrawOption, EdgeFormat, Pointer,
};
use crate::figure::edge::ROOT;
use crate::figure::order::{
    canonical, children_of, children_upto, expand, expand_first, indexed, is_forest,
    lemma_children_of, lemma_expand_first, lemma_forest_by_length, lemma_forest_order,
    lemma_parents_first_forest, lemma_ranked_forest, parents_first, pending_order,
    pending_visits, valid_parents, visits_first,
};
use crate::figure::pose::PoseSnapshot;
use crate::maths::{midpoint, Vector2};
use vstd::prelude::*;

verus! {

/// Why a figure refused an operation. A refused operation leaves the figure
/// as it was.
#[derive(Debug, Clone, Copy, PartialEq, Eq, Structural)]
pub enum FigureError {
    /// An index or a parent reference names no segment.
    InvalidIndex,
    /// The segment is of the wrong kind for the operation.
    UnsupportedOperation,
    /// Some segment never reaches a root by following parents.
    ParentCycle,
}

/// The parent reference of each segment.
pub open spec fn parents_of(tree: Seq<Edge>) -> Seq<isize> {
    Seq::new(tree.len(), |i: int| tree[i].parent)
}

/// Every segment's points and committed orientation are in bounds.
pub open spec fn all_in_bounds(tree: Seq<Edge>) -> bool {
    forall|i: int| 0 <= i < tree.len() ==> (#[trigger] tree[i]).in_bounds()
}

/// Every segment's cached length and committed orientation agree with its
/// points.
pub open spec fn all_settled(tree: Seq<Edge>) -> bool {
    forall|i: int| 0 <= i < tree.len() ==> (#[trigger] tree[i]).settled()
}

/// What a figure's storage always satisfies: parents are stored before
/// their children, and everything is in bounds.
pub open spec fn well_formed(tree: Seq<Edge>) -> bool {
    parents_first(parents_of(tree)) && all_in_bounds(tree)
}

/// Where a parent reference points once the segments are stored in `order`.
pub open spec fn new_index(order: Seq<usize>, p: isize) -> isize {
    if p < 0 {
        p
    } else {
        order.index_of(p as usize) as isize
    }
}

/// The segments of a forest in storage order, each parent reference
/// pointing to where the same parent now is.
pub open spec fn resorted(tree: Seq<Edge>) -> Seq<Edge> {
    let order = canonical(parents_of(tree));
    Seq::new(
        order.len(),
        |j: int| Edge { parent: new_index(order, tree[order[j] as int].parent), ..tree[order[j] as int] },
    )
}

/// The figure after the line at `index` was cut at its midpoint, before it
/// is put back into storage order: the line now ends at the midpoint, a new
/// line at the end of the storage runs from there to the old end and hangs
/// on the shortened one, and what hung on the line hangs on the new one.
pub open spec fn divided(tree: Seq<Edge>, index: int) -> Seq<Edge> {
    let whole = tree[index];
    let mid = midpoint(whole.start, whole.end);
    Seq::new(
        tree.len() + 1,
        |j: int|
            if j == tree.len() {
                Edge::fresh(mid, whole.end, index as isize, EdgeFormat::LINE)
            } else if j == index {
                whole.posed(whole.start, mid)
            } else if tree[j].parent == index {
                Edge { parent: tree.len() as isize, ..tree[j] }
            } else {
                tree[j]
            },
    )
}

/// Where the children of a deleted root are anchored: at the start of the
/// first root other than the deleted one, or, if there is no other, where
/// the deleted root started.
pub open spec fn anchor_of(tree: Seq<Edge>, index: int) -> Vector2 {
    let roots = children_of(parents_of(tree), -1);
    if roots.len() > 0 && roots[0] != index {
        tree[roots[0] as int].start
    } else if roots.len() > 1 {
        tree[roots[1] as int].start
    } else {
        tree[index].start
    }
}

/// What becomes of the segment `old` when the segment at `index` leaves a
/// figure: a child of the leaving segment hangs on that segment's parent,
/// or, if the leaving segment was a root, becomes a root laid out from
/// `anchor` along its committed orientation; a reference to a segment
/// stored after the leaving one moves down by one.
pub open spec fn survivor(old: Edge, index: int, gone: Edge, anchor: Vector2) -> Edge {
    if old.parent == index {
        if gone.parent == -1 {
            Edge { parent: -1isize, ..old.posed(anchor, shifted(anchor, old.fixed_angle)) }
        } else {
            Edge { parent: gone.parent, ..old }
        }
    } else if old.parent > index {
        Edge { parent: (old.parent - 1) as isize, ..old }
    } else {
        old
    }
}

/// The figure without the segment at `index`.
pub open spec fn deleted(tree: Seq<Edge>, index: int) -> Seq<Edge> {
    Seq::new(
        (tree.len() - 1) as nat,
        |j: int|
            survivor(
                tree[if j < index {
                    j
                } else {
                    j + 1
                }],
                index,
                tree[index],
                anchor_of(tree, index),
            ),
    )
}

/// The pose of every segment of a figure.
pub open spec fn scanned(tree: Seq<Edge>) -> Map<int, (Vector2, Vector2)> {
    Map::new(|i: int| 0 <= i < tree.len(), |i: int| (tree[i].start, tree[i].end))
}

/// The figure with the segments that `poses` names laid between the points
/// that it gives, their lengths and orientations taken from those points;
/// the other segments as they were.
pub open spec fn reposed(tree: Seq<Edge>, poses: Map<int, (Vector2, Vector2)>) -> Seq<Edge> {
    Seq::new(
        tree.len(),
        |i: int|
            if poses.contains_key(i) {
                tree[i].posed(poses[i].0, poses[i].1)
            } else {
                tree[i]
            },
    )
}

/// The poses of the segments of `newer` that `older` does not have at the
/// same index with the same two points. Points are exact, so two poses
/// differ as soon as a coordinate differs by a thousandth.
pub open spec fn differing(older: Seq<Edge>, newer: Seq<Edge>) -> Map<int, (Vector2, Vector2)> {
    Map::new(
        |i: int|
            0 <= i < newer.len() && (i >= older.len() || older[i].start != newer[i].start
                || older[i].end != newer[i].end),
        |i: int| (newer[i].start, newer[i].end),
    )
}

/// The figure with nothing grabbed at the segment at `index` nor at the
/// segments that share its parent, and with that segment's last turn
/// forgotten.
pub open spec fn released(tree: Seq<Edge>, index: int) -> Seq<Edge> {
    Seq::new(
        tree.len(),
        |j: int|
            if j == index {
                Edge {
                    pressed_start: false,
                    pressed_end: false,
                    moved_angle: Vector2 { x: 0, y: 0 },
                    ..tree[j]
                }
            } else if tree[j].parent == tree[index].parent {
                Edge { pressed_start: false, pressed_end: false, ..tree[j] }
            } else {
                tree[j]
            },
    )
}

/// The segment at `index` turned round, as a segment to draw out: it runs
/// from the old end to the old start, with no turn remembered.
pub open spec fn turned_round(edge: Edge) -> Edge {
    Edge { moved_angle: Vector2 { x: 0, y: 0 }, ..edge.posed(edge.end, edge.start) }
}

/// The figure moved so that its first segment starts at `center`. Every
/// point moves by the same offset, clamped into the coordinate bounds;
/// lengths and orientations stay.
pub open spec fn centered(tree: Seq<Edge>, center: Vector2) -> Seq<Edge> {
    if tree.len() == 0 {
        tree
    } else {
        let by = crate::figure::edge::offset(tree[0].start, center);
        Seq::new(
            tree.len(),
            |j: int| Edge { start: shifted(tree[j].start, by), end: shifted(tree[j].end, by), ..tree[j] },
        )
    }
}

/// The indices of the segments of `tree` whose parent is `index`, ascending.
fn children_in(tree: &Vec<Edge>, index: isize) -> (kids: Vec<usize>)
    ensures
        kids@ == children_of(parents_of(tree@), index as int),
{
    let mut kids: Vec<usize> = Vec::new();
    let mut i: usize = 0;
    while i < tree.len()
        invariant
            i <= tree.len(),
            kids@ == children_upto(parents_of(tree@), index as int, i as nat),
        decreases tree.len() - i,
    {
        if tree[i].parent == index {
            kids.push(i);
        }
        i += 1;
    }
    kids
}

/// The segments of `tree` below `index`, down to `fuel` levels, in storage
/// order. The walk keeps the segments it has yet to go below on a stack of
/// its own, so a long chain costs no depth of calls.
fn indexed_in(tree: &Vec<Edge>, index: isize, fuel: usize) -> (sector: Vec<usize>)
    requires
        tree.len() <= isize::MAX,
    ensures
        sector@ == indexed(parents_of(tree@), index as int, fuel as nat),
{
    let ghost parents = parents_of(tree@);
    let mut sector: Vec<usize> = Vec::new();
    let mut pending: Vec<(isize, usize)> = Vec::new();
    pending.push((index, fuel));
    proof {
        assert(pending@.drop_last() =~= Seq::<(isize, usize)>::empty());
        assert(pending_order(parents, pending@.drop_last()) == Seq::<usize>::empty());
        assert(pending_order(parents, pending@) =~= indexed(parents, index as int, fuel as nat));
        assert(sector@ + pending_order(parents, pending@) =~= indexed(
            parents,
            index as int,
            fuel as nat,
        ));
    }
    while pending.len() > 0
        invariant
            tree.len() <= isize::MAX,
            parents == parents_of(tree@),
            sector@ + pending_order(parents, pending@) == indexed(
                parents,
                index as int,
                fuel as nat,
            ),
        decreases pending_visits(parents, pending@),
    {
        let ghost before = pending@;
        let ghost listed = sector@;
        let (node, left) = match pending.pop() {
            Some(entry) => entry,
            None => (ROOT, 0),
        };
        assert(pending@ == before.drop_last());
        let ghost base = pending@;
        if left > 0 {
            let children = children_in(tree, node);
            proof {
                lemma_children_of(parents, node as int);
            }
            let mut k: usize = 0;
            while k < children.len()
                invariant
                    k <= children.len(),
                    tree.len() <= isize::MAX,
                    left > 0,
                    forall|j: int| 0 <= j < children.len() ==> #[trigger] children[j] < tree.len(),
                    sector@ == listed + children@.take(k as int),
                    pending_order(parents, pending@) == expand_first(
                        parents,
                        children@,
                        k as nat,
                        (left - 1) as nat,
                    ) + pending_order(parents, base),
                    pending_visits(parents, pending@) == visits_first(
                        parents,
                        children@,
                        k as nat,
                        (left - 1) as nat,
                    ) + pending_visits(parents, base),
                decreases children.len() - k,
            {
                let child: usize = children[k];
                let ghost stack = pending@;
                sector.push(child);
                pending.push((child as isize, left - 1));
                proof {
                    assert(pending@.drop_last() == stack);
                    assert(sector@ =~= listed + children@.take(k + 1));
                    let here = indexed(parents, child as int, (left - 1) as nat);
                    let below = expand_first(parents, children@, k as nat, (left - 1) as nat);
                    assert(here + (below + pending_order(parents, base)) =~= (here + below)
                        + pending_order(parents, base));
                }
                k += 1;
            }
            proof {
                assert(children@.take(children@.len() as int) == children@);
                lemma_expand_first(parents, children@, 0, (left - 1) as nat);
                let all = expand_first(parents, children@, children@.len(), (left - 1) as nat);
                assert(expand(parents, children@, 0, (left - 1) as nat) + Seq::<usize>::empty()
                    =~= expand(parents, children@, 0, (left - 1) as nat));
                assert((listed + children@) + (all + pending_order(parents, base)) =~= listed + ((
                children@ + all) + pending_order(parents, base)));
            }
        } else {
            proof {
                assert(listed + (Seq::<usize>::empty() + pending_order(parents, base)) =~= listed
                    + pending_order(parents, base));
            }
        }
    }
    proof {
        assert(sector@ + Seq::<usize>::empty() =~= sector@);
    }
    sector
}

/// The segments of the forest `tree` in its storage order `order`, parent
/// references following.
fn sorted_copy(tree: &Vec<Edge>, order: &Vec<usize>) -> (sorted: Vec<Edge>)
    requires
        is_forest(parents_of(tree@)),
        order@ == canonical(parents_of(tree@)),
    ensures
        sorted@ == resorted(tree@),
{
    let n = tree.len();
    proof {
        lemma_forest_order(parents_of(tree@));
    }
    let mut position: Vec<usize> = Vec::new();
    let mut k: usize = 0;
    while k < n
        invariant
            k <= n,
            position.len() == k,
        decreases n - k,
    {
        position.push(0);
        k += 1;
    }
    let mut sorted: Vec<Edge> = Vec::new();
    let mut j: usize = 0;
    while j < n
        invariant
            j <= n,
            n == tree.len(),
            n <= isize::MAX,
            order@ == canonical(parents_of(tree@)),
            order.len() == n,
            order@.no_duplicates(),
            valid_parents(parents_of(tree@)),
            forall|i: int| 0 <= i < n ==> #[trigger] order[i] < n,
            forall|i: int|
                0 <= i < n && parents_of(tree@)[(#[trigger] order@[i]) as int] != -1 ==> exists|
                h: int,
            | 0 <= h < i && #[trigger] order@[h] == parents_of(tree@)[order@[i] as int],
            position.len() == n,
            sorted.len() == j,
            forall|i: int| 0 <= i < j ==> position[(#[trigger] order[i]) as int] == i,
            forall|i: int| 0 <= i < j ==> #[trigger] sorted[i] == resorted(tree@)[i],
        decreases n - j,
    {
        let e: usize = order[j];
        let mut edge: Edge = tree[e];
        position[e] = j;
        assert(parents_of(tree@)[e as int] == edge.parent);
        if edge.parent >= 0 {
            proof {
                let h = choose|h: int|
                    0 <= h < j && #[trigger] order@[h] == parents_of(tree@)[order@[j as int] as int];
                assert(position[order[h] as int] == h);
                assert(order@.index_of(edge.parent as usize) == h);
            }
            edge.parent = position[edge.parent as usize] as isize;
        }
        sorted.push(edge);
        j += 1;
    }
    assert(sorted@ =~= resorted(tree@));
    sorted
}

/// What resorting a forest keeps and what it gains: the same number of
/// segments, each as it was but for its parent reference, which points to
/// where the same parent now is; and every parent stored before its
/// children.
pub proof fn lemma_resorted(tree: Seq<Edge>)
    requires
        is_forest(parents_of(tree)),
    ensures
        resorted(tree).len() == tree.len(),
        parents_first(parents_of(resorted(tree))),
        forall|j: int|
            0 <= j < tree.len() ==> {
                let from = canonical(parents_of(tree))[j] as int;
                let old = tree[from];
                let now = #[trigger] resorted(tree)[j];
                &&& 0 <= from < tree.len()
                &&& now == Edge { parent: now.parent, ..old }
                &&& old.parent == -1 ==> now.parent == -1
                &&& old.parent != -1 ==> 0 <= now.parent < j && canonical(
                    parents_of(tree),
                )[now.parent as int] == old.parent
            },
        forall|x: usize| x < tree.len() ==> #[trigger] canonical(parents_of(tree)).contains(x),
        canonical(parents_of(tree)).no_duplicates(),
        all_in_bounds(tree) ==> all_in_bounds(resorted(tree)),
        all_settled(tree) ==> all_settled(resorted(tree)),
{
    let parents = parents_of(tree);
    let order = canonical(parents);
    lemma_forest_order(parents);
    assert forall|j: int| 0 <= j < tree.len() implies {
        let from = order[j] as int;
        let old = tree[from];
        let now = #[trigger] resorted(tree)[j];
        &&& 0 <= from < tree.len()
        &&& now == Edge { parent: now.parent, ..old }
        &&& old.parent == -1 ==> now.parent == -1
        &&& old.parent != -1 ==> 0 <= now.parent < j && order[now.parent as int] == old.parent
    } by {
        let from = order[j] as int;
        let old = tree[from];
        assert(parents[from] == old.parent);
        if old.parent != -1 {
            let h = choose|h: int| 0 <= h < j && #[trigger] order[h] == parents[order[j] as int];
            assert(order.index_of(old.parent as usize) == h);
        }
    }
    assert forall|i: int| 0 <= i < tree.len() implies -1 <= #[trigger] parents_of(resorted(tree))[i]
        < i by {
        let now = resorted(tree)[i];
        assert(parents_of(resorted(tree))[i] == now.parent);
    }
}

/// A figure: its segments, and what the hand on the pointer has hold of.
#[derive(Debug, Clone)]
pub struct Figure {
    /// The segments, every parent before its children.
    pub tree: Vec<Edge>,
    /// Whether the pointer moves this figure at all.
    pub should_update: bool,
    pub draw_option: EdgeDrawOption,
    /// The segment grabbed during the last update, if one was.
    pub selected: Option<usize>,
    /// A segment being drawn out that is not part of the figure yet.
    pub tmp_edge: Option<Edge>,
    /// Some point of the figure is grabbed.
    pub pressed: bool,
    /// The grabbed point is the start of a root.
    pub presset_root: bool,
}

impl View for Figure {
    type V = Seq<Edge>;

    /// The segments in storage order.
    open spec fn view(&self) -> Seq<Edge> {
        self.tree@
    }
}

impl Figure {
    /// Parents are stored before their children and everything is in
    /// bounds.
    pub open spec fn wf(&self) -> bool {
        well_formed(self@)
    }

    /// Everything but the segments is the same in both figures.
    pub open spec fn same_controls(&self, other: &Figure) -> bool {
        &&& self.should_update == other.should_update
        &&& self.draw_option == other.draw_option
        &&& self.selected == other.selected
        &&& self.tmp_edge == other.tmp_edge
        &&& self.pressed == other.pressed
        &&& self.presset_root == other.presset_root
    }

    /// A figure of the given segments, put into storage order. The segments
    /// must form a forest: every parent reference valid, and every segment
    /// leading to a root.
    pub fn new(tree: Vec<Edge>) -> (made: Result<Figure, FigureError>)
        requires
            tree.len() <= isize::MAX,
            all_in_bounds(tree@),
        ensures
            match made {
                Ok(figure) => {
                    &&& is_forest(parents_of(tree@))
                    &&& figure@ == resorted(tree@)
                    &&& figure.wf()
                    &&& figure.should_update
                    &&& figure.draw_option.point
                    &&& figure.selected.is_none()
                    &&& figure.tmp_edge.is_none()
                    &&& !figure.pressed
                    &&& !figure.presset_root
                },
                Err(FigureError::InvalidIndex) => !valid_parents(parents_of(tree@)),
                Err(FigureError::ParentCycle) => valid_parents(parents_of(tree@)) && !is_forest(
                    parents_of(tree@),
                ),
                Err(FigureError::UnsupportedOperation) => false,
            },
    {
        let n = tree.len();
        let mut i: usize = 0;
        while i < n
            invariant
                i <= n,
                n == tree.len(),
                n <= isize::MAX,
                forall|j: int| 0 <= j < i ==> -1 <= #[trigger] parents_of(tree@)[j] < n,
            decreases n - i,
        {
            let parent = tree[i].parent;
            if parent < -1 || parent >= n as isize {
                assert(parents_of(tree@)[i as int] == parent);
                return Err(FigureError::InvalidIndex);
            }
            assert(parents_of(tree@)[i as int] == parent);
            i += 1;
        }
        let order = indexed_in(&tree, -1, n);
        proof {
            lemma_forest_by_length(parents_of(tree@));
        }
        if order.len() != n {
            return Err(FigureError::ParentCycle);
        }
        let sorted = sorted_copy(&tree, &order);
        proof {
            lemma_resorted(tree@);
        }
        Ok(
            Figure {
                tree: sorted,
                presset_root: false,
                selected: None,
                draw_option: EdgeDrawOption::new(),
                tmp_edge: None,
                pressed: false,
                should_update: true,
            },
        )
    }

    /// The number of segments.
    pub fn len(&self) -> (n: usize)
        ensures
            n == self@.len(),
    {
        self.tree.len()
    }

    /// The indices of the segments whose parent is `index`, ascending; with
    /// [`edge::ROOT`] for `index`, the roots.
    pub fn get_children(&self, index: isize) -> (kids: Vec<usize>)
        ensures
            kids@ == children_of(parents_of(self@), index as int),
    {
        children_in(&self.tree, index)
    }

    /// Everything below `index` in storage order: its children first, then
    /// what lies below each child, the last child first. With
    /// [`edge::ROOT`] for `index` this is the storage order of the whole
    /// figure.
    pub fn indexed_tree(&self, index: isize) -> (sector: Vec<usize>)
        requires
            self@.len() <= isize::MAX,
        ensures
            sector@ == indexed(parents_of(self@), index as int, self@.len()),
    {
        indexed_in(&self.tree, index, self.tree.len())
    }

    /// Puts the segments into storage order.
    pub fn resort(&mut self)
        requires
            old(self).wf(),
        ensures
            final(self)@ == resorted(old(self)@),
            final(self).wf(),
            final(self).same_controls(old(self)),
    {
        proof {
            lemma_parents_first_forest(parents_of(self@));
            lemma_resorted(self@);
        }
        let order = indexed_in(&self.tree, -1, self.tree.len());
        self.tree = sorted_copy(&self.tree, &order);
    }

    /// The segment at `index`.
    pub fn get(&self, index: usize) -> (found: Result<&Edge, FigureError>)
        ensures
            index < self@.len() ==> found == Ok::<&Edge, FigureError>(&self@[index as int]),
            index >= self@.len() ==> found == Err::<&Edge, FigureError>(FigureError::InvalidIndex),
    {
        if index < self.tree.len() {
            Ok(&self.tree[index])
        } else {
            Err(FigureError::InvalidIndex)
        }
    }

    /// Adds a segment and puts the figure back into storage order. The
    /// segment's parent must be a segment of the figure or
    /// [`edge::ROOT`].
    pub fn insert(&mut self, edge: Edge) -> (done: Result<(), FigureError>)
        requires
            old(self).wf(),
            old(self)@.len() < isize::MAX,
            edge.in_bounds(),
        ensures
            final(self).same_controls(old(self)),
            final(self).wf(),
            match done {
                Ok(()) => {
                    &&& -1 <= edge.parent < old(self)@.len()
                    &&& final(self)@ == resorted(old(self)@.push(edge))
                },
                Err(e) => {
                    &&& e == FigureError::InvalidIndex
                    &&& !(-1 <= edge.parent < old(self)@.len())
                    &&& final(self)@ == old(self)@
                },
            },
    {
        if edge.parent < -1 || edge.parent >= self.tree.len() as isize {
            return Err(FigureError::InvalidIndex);
        }
        self.tree.push(edge);
        proof {
            assert(parents_first(parents_of(self.tree@))) by {
                assert forall|i: int| 0 <= i < self.tree@.len() implies -1
                    <= #[trigger] parents_of(self.tree@)[i] < i by {
                    if i < old(self)@.len() {
                        assert(parents_of(old(self)@)[i] == old(self)@[i].parent);
                    }
                }
            }
            lemma_parents_first_forest(parents_of(self.tree@));
            lemma_resorted(self.tree@);
        }
        let order = indexed_in(&self.tree, -1, self.tree.len());
        self.tree = sorted_copy(&self.tree, &order);
        Ok(())
    }

    /// The pose of every segment.
    pub fn scan(&self) -> (snapshot: PoseSnapshot)
        ensures
            snapshot@ == scanned(self@),
            all_in_bounds(self@) ==> snapshot.in_bounds(),
    {
        let mut poses: Vec<Option<(Vector2, Vector2)>> = Vec::new();
        let mut i: usize = 0;
        while i < self.tree.len()
            invariant
                i <= self.tree.len(),
                poses.len() == i,
                forall|k: int|
                    0 <= k < i ==> #[trigger] poses[k] == Some((self@[k].start, self@[k].end)),
            decreases self.tree.len() - i,
        {
            poses.push(Some((self.tree[i].start, self.tree[i].end)));
            i += 1;
        }
        let snapshot = PoseSnapshot { poses };
        assert(snapshot@ =~= scanned(self@));
        proof {
            if all_in_bounds(self@) {
                assert forall|k: int| #[trigger] snapshot@.contains_key(k) implies snapshot@[k].0.in_bounds()
                    && snapshot@[k].1.in_bounds() by {
                    assert(self@[k].in_bounds());
                }
            }
        }
        snapshot
    }

    /// Lays every segment that `diff` names between the points that it
    /// gives, and takes the segment's length and committed orientation from
    /// them. Segments that `diff` does not name stay as they are. A pose for
    /// a segment that the figure does not have is refused.
    pub fn load_state(&mut self, diff: &PoseSnapshot) -> (done: Result<(), FigureError>)
        requires
            diff.in_bounds(),
        ensures
            final(self).same_controls(old(self)),
            old(self).wf() ==> final(self).wf(),
            match done {
                Ok(()) => {
                    &&& forall|i: int| #[trigger] diff@.contains_key(i) ==> i < old(self)@.len()
                    &&& final(self)@ == reposed(old(self)@, diff@)
                },
                Err(e) => {
                    &&& e == FigureError::InvalidIndex
                    &&& exists|i: int| #[trigger] diff@.contains_key(i) && i >= old(self)@.len()
                    &&& final(self)@ == old(self)@
                },
            },
    {
        let n = self.tree.len();
        let m = diff.poses.len();
        let mut k: usize = n;
        while k < m
            invariant
                n <= k,
                m == diff.poses@.len(),
                n == old(self)@.len(),
                *self == *old(self),
                forall|i: int| n <= i < k ==> !#[trigger] diff@.contains_key(i),
            decreases m - k,
        {
            if diff.poses[k].is_some() {
                assert(diff@.contains_key(k as int));
                return Err(FigureError::InvalidIndex);
            }
            k += 1;
        }
        let stop = if m < n {
            m
        } else {
            n
        };
        let mut i: usize = 0;
        while i < stop
            invariant
                i <= stop,
                stop <= n,
                stop <= m,
                m == diff.poses@.len(),
                n == old(self)@.len(),
                self.tree@.len() == n,
                self.same_controls(old(self)),
                diff.in_bounds(),
                forall|j: int| 0 <= j < i ==> #[trigger] self.tree@[j] == reposed(old(self)@, diff@)[j],
                forall|j: int| i <= j < n ==> #[trigger] self.tree@[j] == old(self)@[j],
            decreases stop - i,
        {
            match diff.poses[i] {
                Some((start, end)) => {
                    assert(diff@.contains_key(i as int));
                    let mut edge: Edge = self.tree[i];
                    edge.start = start;
                    edge.end = end;
                    edge.update_angle();
                    self.tree[i] = edge;
                },
                None => {},
            }
            i += 1;
        }
        proof {
            assert(self.tree@ =~= reposed(old(self)@, diff@));
            if old(self).wf() {
                lemma_reposed(old(self)@, diff@);
            }
        }
        Ok(())
    }

    /// The poses of the segments of `newer` that differ from this figure's:
    /// see [`differing`].
    pub fn diff(&self, newer: &Figure) -> (snapshot: PoseSnapshot)
        ensures
            snapshot@ == differing(self@, newer@),
            all_in_bounds(newer@) ==> snapshot.in_bounds(),
    {
        let mut poses: Vec<Option<(Vector2, Vector2)>> = Vec::new();
        let mut i: usize = 0;
        while i < newer.tree.len()
            invariant
                i <= newer.tree.len(),
                poses.len() == i,
                forall|k: int|
                    0 <= k < i ==> #[trigger] poses[k] == if differing(self@, newer@).contains_key(
                        k,
                    ) {
                        Some((newer@[k].start, newer@[k].end))
                    } else {
                        None
                    },
            decreases newer.tree.len() - i,
        {
            let now: Edge = newer.tree[i];
            if i >= self.tree.len() {
                poses.push(Some((now.start, now.end)));
            } else {
                let was: Edge = self.tree[i];
                if was.start != now.start || was.end != now.end {
                    poses.push(Some((now.start, now.end)));
                } else {
                    poses.push(None);
                }
            }
            i += 1;
        }
        let snapshot = PoseSnapshot { poses };
        assert(snapshot@ =~= differing(self@, newer@));
        proof {
            if all_in_bounds(newer@) {
                assert forall|k: int| #[trigger] snapshot@.contains_key(k) implies snapshot@[k].0.in_bounds()
                    && snapshot@[k].1.in_bounds() by {
                    assert(newer@[k].in_bounds());
                }
            }
        }
        snapshot
    }

    /// The segment at `index`, to change in place. Whoever changes its
    /// parent or moves it out of bounds answers for the figure's order.
    pub fn get_mut(&mut self, index: usize) -> (edge: &mut Edge)
        requires
            index < old(self)@.len(),
        ensures
            *edge == old(self)@[index as int],
            final(self)@ == old(self)@.update(index as int, *final(edge)),
            final(self).same_controls(old(self)),
    {
        &mut self.tree[index]
    }

    /// Lets go of the segment at `index` and of the segments that share its
    /// parent, and forgets that segment's last turn.
    pub fn clear_edge_and_children(&mut self, index: usize) -> (done: Result<(), FigureError>)
        ensures
            final(self).same_controls(old(self)),
            old(self).wf() ==> final(self).wf(),
            match done {
                Ok(()) => {
                    &&& index < old(self)@.len()
                    &&& final(self)@ == released(old(self)@, index as int)
                },
                Err(e) => {
                    &&& e == FigureError::InvalidIndex
                    &&& index >= old(self)@.len()
                    &&& final(self)@ == old(self)@
                },
            },
    {
        let n = self.tree.len();
        if index >= n {
            return Err(FigureError::InvalidIndex);
        }
        let parent = self.tree[index].parent;
        let mut j: usize = 0;
        while j < n
            invariant
                j <= n,
                index < n,
                n == old(self)@.len(),
                self.tree@.len() == n,
                self.same_controls(old(self)),
                parent == old(self)@[index as int].parent,
                forall|k: int| 0 <= k < j ==> #[trigger] self.tree@[k] == released(old(self)@, index as int)[k],
                forall|k: int| j <= k < n ==> #[trigger] self.tree@[k] == old(self)@[k],
            decreases n - j,
        {
            let mut edge: Edge = self.tree[j];
            if j == index {
                edge.pressed_start = false;
                edge.pressed_end = false;
                edge.moved_angle = Vector2 { x: 0, y: 0 };
            } else if edge.parent == parent {
                edge.pressed_start = false;
                edge.pressed_end = false;
            }
            self.tree[j] = edge;
            j += 1;
        }
        proof {
            assert(self.tree@ =~= released(old(self)@, index as int));
            if old(self).wf() {
                assert forall|i: int| 0 <= i < n implies -1 <= #[trigger] parents_of(self.tree@)[i]
                    < i && (#[trigger] self.tree@[i]).in_bounds() by {
                    assert(parents_of(old(self)@)[i] == old(self)@[i].parent);
                    assert(old(self)@[i].in_bounds());
                }
            }
        }
        Ok(())
    }

    /// Keeps the segment at `index`, turned round, as the segment being
    /// drawn out.
    pub fn copy_tmp(&mut self, index: usize) -> (done: Result<(), FigureError>)
        requires
            all_in_bounds(old(self)@),
        ensures
            final(self)@ == old(self)@,
            final(self).should_update == old(self).should_update,
            final(self).draw_option == old(self).draw_option,
            final(self).selected == old(self).selected,
            final(self).pressed == old(self).pressed,
            final(self).presset_root == old(self).presset_root,
            match done {
                Ok(()) => {
                    &&& index < old(self)@.len()
                    &&& final(self).tmp_edge == Some(turned_round(old(self)@[index as int]))
                },
                Err(e) => {
                    &&& e == FigureError::InvalidIndex
                    &&& index >= old(self)@.len()
                    &&& final(self).tmp_edge == old(self).tmp_edge
                },
            },
    {
        if index >= self.tree.len() {
            return Err(FigureError::InvalidIndex);
        }
        let mut edge: Edge = self.tree[index];
        assert(edge.in_bounds());
        let start = edge.start;
        edge.start = edge.end;
        edge.end = start;
        edge.update_angle();
        edge.moved_angle = Vector2 { x: 0, y: 0 };
        self.tmp_edge = Some(edge);
        Ok(())
    }

    /// Moves the figure so that its first segment starts at `center`: see
    /// [`centered`].
    pub fn center_to(&mut self, center: Vector2)
        requires
            all_in_bounds(old(self)@),
            center.in_bounds(),
        ensures
            final(self)@ == centered(old(self)@, center),
            final(self).same_controls(old(self)),
            all_in_bounds(final(self)@),
            old(self).wf() ==> final(self).wf(),
    {
        let n = self.tree.len();
        if n == 0 {
            return ;
        }
        let first: Edge = self.tree[0];
        assert(first.in_bounds());
        let by = Vector2 { x: center.x - first.start.x, y: center.y - first.start.y };
        let mut j: usize = 0;
        while j < n
            invariant
                j <= n,
                0 < n,
                n == old(self)@.len(),
                self.tree@.len() == n,
                self.same_controls(old(self)),
                all_in_bounds(old(self)@),
                by == crate::figure::edge::offset(old(self)@[0].start, center),
                -2 * crate::maths::LIMIT <= by.x <= 2 * crate::maths::LIMIT,
                -2 * crate::maths::LIMIT <= by.y <= 2 * crate::maths::LIMIT,
                forall|k: int| 0 <= k < j ==> #[trigger] self.tree@[k] == centered(old(self)@, center)[k],
                forall|k: int| j <= k < n ==> #[trigger] self.tree@[k] == old(self)@[k],
            decreases n - j,
        {
            let mut edge: Edge = self.tree[j];
            assert(edge.in_bounds());
            edge.start = Vector2 {
                x: crate::maths::clamp_coord(edge.start.x + by.x),
                y: crate::maths::clamp_coord(edge.start.y + by.y),
            };
            edge.end = Vector2 {
                x: crate::maths::clamp_coord(edge.end.x + by.x),
                y: crate::maths::clamp_coord(edge.end.y + by.y),
            };
            self.tree[j] = edge;
            j += 1;
        }
        proof {
            assert(self.tree@ =~= centered(old(self)@, center));
            assert forall|i: int| 0 <= i < n implies (#[trigger] self.tree@[i]).in_bounds() by {
                assert(old(self)@[i].in_bounds());
            }
            if old(self).wf() {
                assert forall|i: int| 0 <= i < n implies -1 <= #[trigger] parents_of(self.tree@)[i]
                    < i by {
                    assert(parents_of(old(self)@)[i] == old(self)@[i].parent);
                }
            }
        }
    }

    /// Lays the segment at `index` between the two points, and takes its
    /// length and committed orientation from them.
    pub fn set_pose(&mut self, index: usize, start: Vector2, end: Vector2) -> (done: Result<
        (),
        FigureError,
    >)
        requires
            start.in_bounds(),
            end.in_bounds(),
        ensures
            final(self).same_controls(old(self)),
            old(self).wf() ==> final(self).wf(),
            match done {
                Ok(()) => index < old(self)@.len() && final(self)@ == old(self)@.update(
                    index as int,
                    old(self)@[index as int].posed(start, end),
                ),
                Err(e) => e == FigureError::InvalidIndex && index >= old(self)@.len() && final(self)@ == old(self)@,
            },
    {
        if index >= self.tree.len() {
            return Err(FigureError::InvalidIndex);
        }
        let mut edge: Edge = self.tree[index];
        edge.start = start;
        edge.end = end;
        edge.update_angle();
        self.tree[index] = edge;
        proof {
            if old(self).wf() {
                assert forall|i: int| 0 <= i < self.tree@.len() implies -1 <= #[trigger] parents_of(
                    self.tree@,
                )[i] < i && (#[trigger] self.tree@[i]).in_bounds() by {
                    assert(parents_of(old(self)@)[i] == old(self)@[i].parent);
                    assert(old(self)@[i].in_bounds());
                }
            }
        }
        Ok(())
    }

    /// Begins an update: no segment counts as just grabbed. Says whether
    /// the pointer may move this figure at all.
    pub fn begin_update(&mut self) -> (run: bool)
        ensures
            run == old(self).should_update,
            final(self)@ == old(self)@,
            final(self).selected.is_none(),
            final(self).should_update == old(self).should_update,
            final(self).draw_option == old(self).draw_option,
            final(self).tmp_edge == old(self).tmp_edge,
            final(self).pressed == old(self).pressed,
            final(self).presset_root == old(self).presset_root,
    {
        self.selected = None;
        self.should_update
    }

    /// The update of the segment at `index`: see [`edge::ticked`]. The
    /// segments of a figure are updated in storage order, each after its
    /// parent, and each is laid with [`Figure::lay`] before the next is
    /// updated. The segment counts as just grabbed if this update grabbed
    /// the figure's first point or let go of it. A figure that the pointer
    /// may not move stays as it is.
    pub fn update(&mut self, pointer: Pointer, index: usize) -> (done: Result<Aim, FigureError>)
        requires
            old(self).wf(),
            pointer.position.in_bounds(),
        ensures
            final(self).wf(),
            final(self).should_update == old(self).should_update,
            final(self).draw_option == old(self).draw_option,
            final(self).tmp_edge == old(self).tmp_edge,
            match done {
                Ok(aim) => index < old(self)@.len() && if old(self).should_update {
                    let after = ticked(
                        old(self)@[index as int],
                        pointer,
                        parent_in(old(self)@[index as int], old(self)@),
                        old(self).pressed,
                        old(self).presset_root,
                    );
                    &&& final(self)@ == old(self)@.update(index as int, after.edge)
                    &&& final(self).pressed == after.point_pressed
                    &&& final(self).presset_root == after.pressed_root
                    &&& aim == after.aim
                    &&& final(self).selected == if old(self).pressed != after.point_pressed {
                        Some(index)
                    } else {
                        old(self).selected
                    }
                } else {
                    aim == Aim::Keep && *final(self) == *old(self)
                },
                Err(e) => e == FigureError::InvalidIndex && index >= old(self)@.len() && *final(self) == *old(self),
            },
    {
        if index >= self.tree.len() {
            return Err(FigureError::InvalidIndex);
        }
        if !self.should_update {
            return Ok(Aim::Keep);
        }
        let pressed_before = self.pressed;
        let mut edge: Edge = self.tree[index];
        proof {
            assert(edge.in_bounds());
            assert(parents_of(self@)[index as int] == edge.parent);
            if edge.parent >= 0 {
                assert(self@[edge.parent as int].in_bounds());
            }
        }
        let mut pressed = self.pressed;
        let mut pressed_root = self.presset_root;
        let aim = edge.update(pointer, &self.tree, &mut pressed, &mut pressed_root);
        self.pressed = pressed;
        self.presset_root = pressed_root;
        self.tree[index] = edge;
        if pressed_before != self.pressed {
            self.selected = Some(index);
        }
        proof {
            assert forall|i: int| 0 <= i < self.tree@.len() implies -1 <= #[trigger] parents_of(
                self.tree@,
            )[i] < i && (#[trigger] self.tree@[i]).in_bounds() by {
                assert(parents_of(old(self)@)[i] == old(self)@[i].parent);
                assert(old(self)@[i].in_bounds());
            }
        }
        Ok(aim)
    }

    /// Lays the segment at `index` from its start point along `by`: its end
    /// point is its start point moved by `by`, clamped into the coordinate
    /// bounds.
    pub fn lay(&mut self, index: usize, by: Vector2) -> (done: Result<(), FigureError>)
        requires
            old(self).wf(),
        ensures
            final(self).wf(),
            final(self).same_controls(old(self)),
            match done {
                Ok(()) => index < old(self)@.len() && final(self)@ == old(self)@.update(
                    index as int,
                    Edge {
                        end: shifted(old(self)@[index as int].start, by),
                        ..old(self)@[index as int]
                    },
                ),
                Err(e) => e == FigureError::InvalidIndex && index >= old(self)@.len() && final(self)@ == old(self)@,
            },
    {
        if index >= self.tree.len() {
            return Err(FigureError::InvalidIndex);
        }
        let mut edge: Edge = self.tree[index];
        assert(edge.in_bounds());
        edge.lay(by);
        self.tree[index] = edge;
        proof {
            assert forall|i: int| 0 <= i < self.tree@.len() implies -1 <= #[trigger] parents_of(
                self.tree@,
            )[i] < i && (#[trigger] self.tree@[i]).in_bounds() by {
                assert(parents_of(old(self)@)[i] == old(self)@[i].parent);
                assert(old(self)@[i].in_bounds());
            }
        }
        Ok(())
    }

    /// Begins to draw out a new segment from the grabbed one: from its end,
    /// hanging on it; or, if the grabbed point is the start of a root, from
    /// that start, as another root. The new segment is pending: it is no
    /// part of the figure yet. Until it is, the pointer moves nothing, and
    /// the grabbed segment and those that share its parent are let go of.
    pub fn begin_tmp(&mut self) -> (done: Result<(), FigureError>)
        requires
            old(self).wf(),
        ensures
            final(self).wf(),
            final(self).selected == old(self).selected,
            final(self).pressed == old(self).pressed,
            match done {
                Ok(()) => {
                    &&& old(self).selected matches Some(index)
                    &&& index < old(self)@.len()
                    &&& ({
                        let from = old(self)@[index as int];
                        let at = if old(self).presset_root {
                            from.start
                        } else {
                            from.end
                        };
                        let parent = if old(self).presset_root {
                            from.parent
                        } else {
                            index as isize
                        };
                        &&& final(self).tmp_edge == Some(
                            Edge::fresh(at, at, parent, EdgeFormat::LINE),
                        )
                        &&& final(self)@ == Seq::new(
                            old(self)@.len(),
                            |j: int|
                                if old(self)@[j].parent == from.parent {
                                    Edge {
                                        pressed_start: false,
                                        pressed_end: false,
                                        ..old(self)@[j]
                                    }
                                } else {
                                    old(self)@[j]
                                },
                        )
                    })
                    &&& !final(self).draw_option.point
                    &&& !final(self).presset_root
                    &&& !final(self).should_update
                },
                Err(e) => {
                    &&& e == FigureError::InvalidIndex
                    &&& match old(self).selected {
                        Some(index) => index >= old(self)@.len(),
                        None => true,
                    }
                    &&& *final(self) == *old(self)
                },
            },
    {
        let index = match self.selected {
            Some(index) => index,
            None => {
                return Err(FigureError::InvalidIndex);
            },
        };
        let n = self.tree.len();
        if index >= n {
            return Err(FigureError::InvalidIndex);
        }
        let from: Edge = self.tree[index];
        assert(from.in_bounds());
        let at = if self.presset_root {
            from.start
        } else {
            from.end
        };
        let parent = if self.presset_root {
            from.parent
        } else {
            index as isize
        };
        self.tmp_edge = Some(Edge::new(at, at, parent, 1));
        self.draw_option.point = false;
        self.presset_root = false;
        self.should_update = false;
        let ghost goal = Seq::new(
            old(self)@.len(),
            |j: int|
                if old(self)@[j].parent == from.parent {
                    Edge { pressed_start: false, pressed_end: false, ..old(self)@[j] }
                } else {
                    old(self)@[j]
                },
        );
        let mut j: usize = 0;
        while j < n
            invariant
                j <= n,
                n == old(self)@.len(),
                self.tree@.len() == n,
                goal.len() == n,
                forall|k: int|
                    0 <= k < n ==> #[trigger] goal[k] == if old(self)@[k].parent == from.parent {
                        Edge { pressed_start: false, pressed_end: false, ..old(self)@[k] }
                    } else {
                        old(self)@[k]
                    },
                forall|k: int| 0 <= k < j ==> #[trigger] self.tree@[k] == goal[k],
                forall|k: int| j <= k < n ==> #[trigger] self.tree@[k] == old(self)@[k],
                self.selected == old(self).selected,
                self.pressed == old(self).pressed,
                self.tmp_edge == Some(Edge::fresh(at, at, parent, EdgeFormat::LINE)),
                !self.draw_option.point,
                !self.presset_root,
                !self.should_update,
            decreases n - j,
        {
            let mut edge: Edge = self.tree[j];
            if edge.parent == from.parent {
                edge.pressed_start = false;
                edge.pressed_end = false;
                self.tree[j] = edge;
            }
            j += 1;
        }
        proof {
            assert(self.tree@ =~= goal);
            assert forall|i: int| 0 <= i < n implies -1 <= #[trigger] parents_of(self.tree@)[i] < i
                && (#[trigger] self.tree@[i]).in_bounds() by {
                assert(parents_of(old(self)@)[i] == old(self)@[i].parent);
                assert(old(self)@[i].in_bounds());
            }
        }
        Ok(())
    }

    /// Picks the grabbed segment up as a copy: keeps it, turned round, as
    /// the pending segment, and lets go of everything. Until the copy is
    /// set down the pointer moves nothing.
    pub fn begin_copy(&mut self) -> (done: Result<(), FigureError>)
        requires
            old(self).wf(),
        ensures
            final(self).wf(),
            final(self).draw_option == old(self).draw_option,
            match done {
                Ok(()) => {
                    &&& old(self).selected matches Some(index)
                    &&& index < old(self)@.len()
                    &&& final(self).tmp_edge == Some(turned_round(old(self)@[index as int]))
                    &&& final(self)@ == released(old(self)@, index as int)
                    &&& final(self).selected.is_none()
                    &&& !final(self).pressed
                    &&& !final(self).presset_root
                    &&& !final(self).should_update
                },
                Err(e) => {
                    &&& e == FigureError::InvalidIndex
                    &&& match old(self).selected {
                        Some(index) => index >= old(self)@.len(),
                        None => true,
                    }
                    &&& *final(self) == *old(self)
                },
            },
    {
        let index = match self.selected {
            Some(index) => index,
            None => {
                return Err(FigureError::InvalidIndex);
            },
        };
        if index >= self.tree.len() {
            return Err(FigureError::InvalidIndex);
        }
        let _copied = self.copy_tmp(index);
        self.selected = None;
        self.pressed = false;
        self.presset_root = false;
        self.should_update = false;
        let _cleared = self.clear_edge_and_children(index);
        Ok(())
    }

    /// Draws the pending segment out to the pointer, as a circle or as a
    /// line. Without a pending segment nothing happens.
    pub fn stretch_tmp(&mut self, pointer: Vector2, circle: bool)
        requires
            pointer.in_bounds(),
            old(self).tmp_edge matches Some(edge) ==> edge.start.in_bounds(),
        ensures
            final(self)@ == old(self)@,
            final(self).should_update == old(self).should_update,
            final(self).draw_option == old(self).draw_option,
            final(self).selected == old(self).selected,
            final(self).pressed == old(self).pressed,
            final(self).presset_root == old(self).presset_root,
            final(self).tmp_edge == match old(self).tmp_edge {
                Some(edge) => Some(
                    Edge {
                        format: if circle {
                            EdgeFormat::CIRCLE
                        } else {
                            EdgeFormat::LINE
                        },
                        ..edge.posed(edge.start, pointer)
                    },
                ),
                None => None,
            },
    {
        match self.tmp_edge {
            Some(mut edge) => {
                edge.end = pointer;
                edge.update_angle();
                edge.format =
                if circle {
                    EdgeFormat::CIRCLE
                } else {
                    EdgeFormat::LINE
                };
                self.tmp_edge = Some(edge);
            },
            None => {},
        }
    }

    /// Carries the pending segment with the pointer: it starts at the
    /// pointer and keeps its committed orientation. Nothing of it is
    /// grabbed, and no turn is remembered. Without a pending segment
    /// nothing happens.
    pub fn carry_tmp(&mut self, pointer: Vector2)
        requires
            pointer.in_bounds(),
            old(self).tmp_edge matches Some(edge) ==> edge.in_bounds(),
        ensures
            final(self)@ == old(self)@,
            final(self).should_update == old(self).should_update,
            final(self).draw_option == old(self).draw_option,
            final(self).selected == old(self).selected,
            final(self).pressed == old(self).pressed,
            final(self).presset_root == old(self).presset_root,
            final(self).tmp_edge == match old(self).tmp_edge {
                Some(edge) => Some(
                    Edge {
                        moved_angle: Vector2 { x: 0, y: 0 },
                        pressed_start: false,
                        pressed_end: false,
                        ..edge.posed(pointer, shifted(pointer, edge.fixed_angle))
                    },
                ),
                None => None,
            },
    {
        match self.tmp_edge {
            Some(mut edge) => {
                edge.start = pointer;
                edge.end = edge.get_real_end();
                edge.update_angle();
                edge.moved_angle = Vector2 { x: 0, y: 0 };
                edge.pressed_start = false;
                edge.pressed_end = false;
                self.tmp_edge = Some(edge);
            },
            None => {},
        }
    }

    /// Makes the pending segment a segment of the figure: inserts it, with
    /// `parent` for its parent if one is given, and lets the pointer move
    /// the figure again. A pending segment whose parent the figure does not
    /// have stays pending.
    pub fn commit_tmp(&mut self, parent: Option<usize>) -> (done: Result<(), FigureError>)
        requires
            old(self).wf(),
            old(self)@.len() < isize::MAX,
            old(self).tmp_edge matches Some(edge) ==> edge.in_bounds(),
        ensures
            final(self).wf(),
            match done {
                Ok(()) => {
                    &&& old(self).tmp_edge matches Some(edge)
                    &&& ({
                        let hung = match parent {
                            Some(p) => Edge { parent: p as isize, ..edge },
                            None => edge,
                        };
                        &&& -1 <= hung.parent < old(self)@.len()
                        &&& final(self)@ == resorted(old(self)@.push(hung))
                    })
                    &&& final(self).tmp_edge.is_none()
                    &&& final(self).selected.is_none()
                    &&& !final(self).pressed
                    &&& !final(self).presset_root
                    &&& final(self).draw_option.point
                    &&& final(self).should_update
                },
                Err(FigureError::UnsupportedOperation) => old(self).tmp_edge.is_none() && *final(self) == *old(self),
                Err(FigureError::InvalidIndex) => {
                    &&& old(self).tmp_edge matches Some(edge)
                    &&& match parent {
                        Some(p) => p >= old(self)@.len(),
                        None => !(-1 <= edge.parent < old(self)@.len()),
                    }
                    &&& final(self)@ == old(self)@
                    &&& final(self).same_controls(old(self))
                },
                Err(FigureError::ParentCycle) => false,
            },
    {
        let mut edge = match self.tmp_edge {
            Some(edge) => edge,
            None => {
                return Err(FigureError::UnsupportedOperation);
            },
        };
        match parent {
            Some(p) => {
                if p >= self.tree.len() {
                    return Err(FigureError::InvalidIndex);
                }
                edge.parent = p as isize;
            },
            None => {},
        }
        match self.insert(edge) {
            Ok(()) => {},
            Err(_) => {
                return Err(FigureError::InvalidIndex);
            },
        }
        self.tmp_edge = None;
        self.selected = None;
        self.pressed = false;
        self.presset_root = false;
        self.draw_option.point = true;
        self.should_update = true;
        Ok(())
    }

    /// Turns a line into a circle and a circle into a line; the points stay.
    pub fn toggle_type(&mut self, index: usize) -> (done: Result<(), FigureError>)
        ensures
            final(self).same_controls(old(self)),
            match done {
                Ok(()) => {
                    &&& index < old(self)@.len()
                    &&& final(self)@ == old(self)@.update(
                        index as int,
                        Edge {
                            format: old(self)@[index as int].format.spec_toggled(),
                            ..old(self)@[index as int]
                        },
                    )
                },
                Err(e) => {
                    &&& e == FigureError::InvalidIndex
                    &&& index >= old(self)@.len()
                    &&& final(self)@ == old(self)@
                },
            },
            old(self).wf() ==> final(self).wf(),
    {
        if index >= self.tree.len() {
            return Err(FigureError::InvalidIndex);
        }
        let mut edge: Edge = self.tree[index];
        edge.format = edge.format.toggled();
        self.tree[index] = edge;
        proof {
            if old(self).wf() {
                assert forall|i: int| 0 <= i < self.tree@.len() implies -1
                    <= #[trigger] parents_of(self.tree@)[i] < i by {
                    assert(parents_of(old(self)@)[i] == old(self)@[i].parent);
                }
            }
        }
        Ok(())
    }

    /// Cuts the line at `index` at its midpoint: see [`divided`]. Then puts
    /// the figure back into storage order.
    pub fn divide(&mut self, index: usize) -> (done: Result<(), FigureError>)
        requires
            old(self).wf(),
            old(self)@.len() < isize::MAX,
        ensures
            final(self).same_controls(old(self)),
            final(self).wf(),
            match done {
                Ok(()) => {
                    &&& index < old(self)@.len()
                    &&& old(self)@[index as int].format == EdgeFormat::LINE
                    &&& final(self)@ == resorted(divided(old(self)@, index as int))
                },
                Err(FigureError::InvalidIndex) => {
                    &&& index >= old(self)@.len()
                    &&& final(self)@ == old(self)@
                },
                Err(FigureError::UnsupportedOperation) => {
                    &&& index < old(self)@.len()
                    &&& old(self)@[index as int].format != EdgeFormat::LINE
                    &&& final(self)@ == old(self)@
                },
                Err(FigureError::ParentCycle) => false,
            },
    {
        let n = self.tree.len();
        if index >= n {
            return Err(FigureError::InvalidIndex);
        }
        let whole: Edge = self.tree[index];
        match whole.format {
            EdgeFormat::LINE => {},
            EdgeFormat::CIRCLE => {
                return Err(FigureError::UnsupportedOperation);
            },
        }
        let mid = whole.start.lerp_half(whole.end);
        let mut j: usize = 0;
        while j < n
            invariant
                j <= n,
                n == old(self)@.len(),
                index < n,
                n < isize::MAX,
                self.tree@.len() == n,
                self.same_controls(old(self)),
                forall|k: int| 0 <= k < j ==> #[trigger] self.tree@[k] == divided(old(self)@, index as int)[k],
                forall|k: int| j <= k < n ==> #[trigger] self.tree@[k] == old(self)@[k],
                whole == old(self)@[index as int],
                mid == midpoint(whole.start, whole.end),
                mid.in_bounds(),
                old(self).wf(),
            decreases n - j,
        {
            let mut edge: Edge = self.tree[j];
            if j == index {
                edge.end = mid;
                edge.update_angle();
            } else if edge.parent == index as isize {
                edge.parent = n as isize;
            }
            self.tree[j] = edge;
            j += 1;
        }
        self.tree.push(Edge::new(mid, whole.end, index as isize, 1));
        proof {
            assert(self.tree@ =~= divided(old(self)@, index as int));
            lemma_divided_forest(old(self)@, index as int);
            lemma_resorted(self.tree@);
        }
        let order = indexed_in(&self.tree, -1, self.tree.len());
        self.tree = sorted_copy(&self.tree, &order);
        Ok(())
    }

    /// Takes the segment at `index` out of the figure: see [`deleted`].
    pub fn delete(&mut self, index: usize) -> (done: Result<(), FigureError>)
        requires
            old(self).wf(),
        ensures
            final(self).same_controls(old(self)),
            final(self).wf(),
            match done {
                Ok(()) => {
                    &&& index < old(self)@.len()
                    &&& final(self)@ == deleted(old(self)@, index as int)
                },
                Err(e) => {
                    &&& e == FigureError::InvalidIndex
                    &&& index >= old(self)@.len()
                    &&& final(self)@ == old(self)@
                },
            },
    {
        let n = self.tree.len();
        if index >= n {
            return Err(FigureError::InvalidIndex);
        }
        let gone: Edge = self.tree[index];
        let roots = children_in(&self.tree, -1);
        proof {
            lemma_children_of(parents_of(self.tree@), -1);
        }
        let anchor: Vector2 = if roots.len() > 0 && roots[0] != index {
            self.tree[roots[0]].start
        } else if roots.len() > 1 {
            self.tree[roots[1]].start
        } else {
            gone.start
        };
        assert(anchor == anchor_of(old(self)@, index as int));
        let mut j: usize = 0;
        while j < n
            invariant
                j <= n,
                n == old(self)@.len(),
                index < n,
                n <= isize::MAX,
                self.tree@.len() == n,
                self.same_controls(old(self)),
                forall|k: int|
                    0 <= k < j ==> #[trigger] self.tree@[k] == survivor(
                        old(self)@[k],
                        index as int,
                        gone,
                        anchor,
                    ),
                forall|k: int| j <= k < n ==> #[trigger] self.tree@[k] == old(self)@[k],
                gone == old(self)@[index as int],
                anchor.in_bounds(),
                old(self).wf(),
            decreases n - j,
        {
            let mut edge: Edge = self.tree[j];
            assert(edge.in_bounds());
            if edge.parent == index as isize {
                if gone.parent == -1 {
                    edge.parent = -1;
                    edge.start = anchor;
                    edge.end = edge.get_real_end();
                    edge.update_angle();
                } else {
                    edge.parent = gone.parent;
                }
            } else if edge.parent > index as isize {
                edge.parent = edge.parent - 1;
            }
            self.tree[j] = edge;
            j += 1;
        }
        self.tree.remove(index);
        proof {
            assert(self.tree@ =~= deleted(old(self)@, index as int));
            lemma_deleted(old(self)@, index as int);
        }
        Ok(())
    }
}

/// Laying segments of a well-formed figure anew, between points in bounds,
/// leaves it well-formed, and each segment laid anew is settled.
pub proof fn lemma_reposed(tree: Seq<Edge>, poses: Map<int, (Vector2, Vector2)>)
    requires
        well_formed(tree),
        forall|i: int| #[trigger]
            poses.contains_key(i) ==> poses[i].0.in_bounds() && poses[i].1.in_bounds(),
    ensures
        well_formed(reposed(tree, poses)),
        all_settled(tree) ==> all_settled(reposed(tree, poses)),
        forall|i: int|
            0 <= i < tree.len() && poses.contains_key(i) ==> (#[trigger] reposed(
                tree,
                poses,
            )[i]).settled(),
{
    let laid = reposed(tree, poses);
    assert forall|i: int| 0 <= i < laid.len() implies -1 <= #[trigger] parents_of(laid)[i] < i by {
        assert(parents_of(tree)[i] == tree[i].parent);
    }
    assert forall|i: int| 0 <= i < laid.len() implies (#[trigger] laid[i]).in_bounds() && ((
    poses.contains_key(i) || tree[i].settled()) ==> laid[i].settled()) by {
        assert(tree[i].in_bounds());
        if poses.contains_key(i) {
            crate::maths::lemma_distance_exists(poses[i].0, poses[i].1);
        }
    }
}

/// Loading the pose that was scanned from a figure moves no point; and if
/// the figure was settled, nothing changes at all.
pub proof fn lemma_load_scan(tree: Seq<Edge>)
    ensures
        reposed(tree, scanned(tree)).len() == tree.len(),
        forall|i: int|
            0 <= i < tree.len() ==> (#[trigger] reposed(tree, scanned(tree))[i]).start
                == tree[i].start && reposed(tree, scanned(tree))[i].end == tree[i].end,
        all_settled(tree) ==> reposed(tree, scanned(tree)) == tree,
{
    if all_settled(tree) {
        assert forall|i: int| 0 <= i < tree.len() implies #[trigger] reposed(tree, scanned(tree))[i]
            == tree[i] by {
            assert(tree[i].settled());
        }
        assert(reposed(tree, scanned(tree)) =~= tree);
    }
}

/// Loading the difference between two figures of the same length into the
/// older one gives every segment the points it has in the newer one.
pub proof fn lemma_load_diff(older: Seq<Edge>, newer: Seq<Edge>)
    requires
        older.len() == newer.len(),
    ensures
        forall|i: int|
            0 <= i < older.len() ==> (#[trigger] reposed(older, differing(older, newer))[i]).start
                == newer[i].start && reposed(older, differing(older, newer))[i].end
                == newer[i].end,
{
}

/// After a line is cut, the figure holds its two halves: the first runs
/// from the old start to the midpoint, the second from the midpoint to the
/// old end and hangs on the first; and their lengths together are the
/// length of the whole, to within one thousandth.
pub proof fn lemma_divide_keeps_width(tree: Seq<Edge>, index: int)
    requires
        well_formed(tree),
        tree.len() < isize::MAX,
        0 <= index < tree.len(),
        tree[index].settled(),
    ensures
        ({
            let order = canonical(parents_of(divided(tree, index)));
            let after = resorted(divided(tree, index));
            let first = order.index_of(index as usize);
            let second = order.index_of(tree.len() as usize);
            let mid = midpoint(tree[index].start, tree[index].end);
            &&& after.len() == tree.len() + 1
            &&& 0 <= first < second < after.len()
            &&& after[first].start == tree[index].start
            &&& after[first].end == mid
            &&& after[second].start == mid
            &&& after[second].end == tree[index].end
            &&& after[second].parent == first
            &&& -1 <= after[first].width + after[second].width - tree[index].width <= 1
        }),
{
    let cut = divided(tree, index);
    let order = canonical(parents_of(cut));
    let after = resorted(cut);
    let whole = tree[index];
    let mid = midpoint(whole.start, whole.end);
    assert(whole.in_bounds());
    lemma_divided_forest(tree, index);
    lemma_resorted(cut);
    assert(order.contains(index as usize));
    assert(order.contains(tree.len() as usize));
    let first = order.index_of(index as usize);
    let second = order.index_of(tree.len() as usize);
    assert(after[first] == Edge { parent: after[first].parent, ..cut[index] });
    assert(after[second] == Edge { parent: after[second].parent, ..cut[tree.len() as int] });
    assert(cut[tree.len() as int].parent == index);
    assert(order[after[second].parent as int] == index);
    crate::maths::lemma_midpoint_in_bounds(whole.start, whole.end);
    crate::maths::lemma_distance_exists(whole.start, mid);
    crate::maths::lemma_distance_exists(mid, whole.end);
    crate::maths::lemma_distance_exists(whole.start, whole.end);
    crate::maths::lemma_midpoint_lengths(whole.start, whole.end);
}

/// After a segment is taken out, each of its children hangs on the parent
/// it had; every other segment hangs on the segment it hung on before,
/// wherever that is now stored; and every parent reference names a segment
/// that is stored earlier, so none names the vacated place at the end or
/// anything past it.
pub proof fn lemma_delete_reparents(tree: Seq<Edge>, index: int)
    requires
        well_formed(tree),
        0 <= index < tree.len(),
    ensures
        deleted(tree, index).len() == tree.len() - 1,
        forall|c: int| 0 <= c < tree.len() && (#[trigger] tree[c]).parent == index ==> c > index,
        forall|j: int|
            0 <= j < tree.len() - 1 ==> {
                let from = if j < index {
                    j
                } else {
                    j + 1
                };
                let now = #[trigger] deleted(tree, index)[j];
                &&& -1 <= now.parent < j
                &&& tree[from].parent == index ==> now.parent == tree[index].parent
                &&& tree[from].parent != index ==> now.parent == (if tree[from].parent > index {
                    tree[from].parent - 1
                } else {
                    tree[from].parent as int
                })
            },
{
    let rest = deleted(tree, index);
    let parents = parents_of(tree);
    assert forall|c: int| 0 <= c < tree.len() && (#[trigger] tree[c]).parent == index implies c
        > index by {
        assert(parents[c] == tree[c].parent);
    }
    assert forall|j: int| 0 <= j < tree.len() - 1 implies {
        let from = if j < index {
            j
        } else {
            j + 1
        };
        let now = #[trigger] rest[j];
        &&& -1 <= now.parent < j
        &&& tree[from].parent == index ==> now.parent == tree[index].parent
        &&& tree[from].parent != index ==> now.parent == (if tree[from].parent > index {
            tree[from].parent - 1
        } else {
            tree[from].parent as int
        })
    } by {
        let from = if j < index {
            j
        } else {
            j + 1
        };
        assert(parents[from] == tree[from].parent);
        assert(parents[index] == tree[index].parent);
    }
}

/// After the segment at `index` is taken out, no segment refers to the
/// place `index`, unless one hung on the segment stored right after it.
pub proof fn lemma_delete_leaves_no_reference(tree: Seq<Edge>, index: int)
    requires
        well_formed(tree),
        0 <= index < tree.len(),
        forall|c: int| 0 <= c < tree.len() ==> (#[trigger] tree[c]).parent != index + 1,
    ensures
        forall|j: int|
            0 <= j < tree.len() - 1 ==> (#[trigger] deleted(tree, index)[j]).parent != index,
{
    let rest = deleted(tree, index);
    assert forall|j: int| 0 <= j < tree.len() - 1 implies (#[trigger] rest[j]).parent != index by {
        let from = if j < index {
            j
        } else {
            j + 1
        };
        assert(parents_of(tree)[from] == tree[from].parent);
        assert(parents_of(tree)[index] == tree[index].parent);
        assert(tree[from].parent != index + 1);
    }
}

/// Cutting a line of a well-formed figure leaves a forest, in bounds.
pub proof fn lemma_divided_forest(tree: Seq<Edge>, index: int)
    requires
        well_formed(tree),
        tree.len() < isize::MAX,
        0 <= index < tree.len(),
    ensures
        is_forest(parents_of(divided(tree, index))),
        all_in_bounds(divided(tree, index)),
        all_settled(tree) ==> all_settled(divided(tree, index)),
{
    let cut = divided(tree, index);
    let parents = parents_of(cut);
    let n = tree.len() as int;
    let rank = Seq::new(
        cut.len(),
        |j: int|
            if j == n {
                index + 1
            } else if j <= index {
                j
            } else {
                j + 1
            },
    );
    assert forall|i: int| 0 <= i < parents.len() implies -1 <= #[trigger] parents[i]
        < parents.len() by {
        if i < n {
            assert(parents_of(tree)[i] == tree[i].parent);
        }
    }
    assert forall|i: int| 0 <= i < parents.len() && parents[i] >= 0 implies rank[parents[i] as int]
        < #[trigger] rank[i] by {
        if i < n {
            assert(parents_of(tree)[i] == tree[i].parent);
        }
    }
    lemma_ranked_forest(parents, rank);
    let whole = tree[index];
    assert(whole.in_bounds());
    crate::maths::lemma_midpoint_in_bounds(whole.start, whole.end);
    crate::maths::lemma_distance_exists(whole.start, midpoint(whole.start, whole.end));
    crate::maths::lemma_distance_exists(midpoint(whole.start, whole.end), whole.end);
    assert forall|i: int| 0 <= i < cut.len() implies (#[trigger] cut[i]).in_bounds() by {
        if i < n {
            assert(tree[i].in_bounds());
        }
    }
    if all_settled(tree) {
        assert forall|i: int| 0 <= i < cut.len() implies (#[trigger] cut[i]).settled() by {
            if i < n {
                assert(tree[i].settled());
            }
        }
    }
}

/// Taking a segment out of a well-formed figure leaves a well-formed
/// figure.
pub proof fn lemma_deleted(tree: Seq<Edge>, index: int)
    requires
        well_formed(tree),
        0 <= index < tree.len(),
    ensures
        well_formed(deleted(tree, index)),
        all_settled(tree) ==> all_settled(deleted(tree, index)),
{
    let rest = deleted(tree, index);
    let anchor = anchor_of(tree, index);
    lemma_anchor_in_bounds(tree, index);
    assert forall|j: int| 0 <= j < rest.len() implies -1 <= #[trigger] parents_of(rest)[j] < j by {
        let from = if j < index {
            j
        } else {
            j + 1
        };
        assert(parents_of(tree)[from] == tree[from].parent);
        assert(parents_of(tree)[index] == tree[index].parent);
    }
    assert forall|j: int| 0 <= j < rest.len() implies (#[trigger] rest[j]).in_bounds() && (
    all_settled(tree) ==> rest[j].settled()) by {
        let from = if j < index {
            j
        } else {
            j + 1
        };
        assert(tree[from].in_bounds());
        let laid = shifted(anchor, tree[from].fixed_angle);
        crate::maths::lemma_distance_exists(anchor, laid);
        if all_settled(tree) {
            assert(tree[from].settled());
        }
    }
}

/// The anchor for the children of a deleted root is in bounds.
pub proof fn lemma_anchor_in_bounds(tree: Seq<Edge>, index: int)
    requires
        well_formed(tree),
        0 <= index < tree.len(),
    ensures
        anchor_of(tree, index).in_bounds(),
{
    lemma_children_of(parents_of(tree), -1);
    let roots = children_of(parents_of(tree), -1);
    if roots.len() > 0 {
        assert(tree[roots[0] as int].in_bounds());
    }
    if roots.len() > 1 {
        assert(tree[roots[1] as int].in_bounds());
    }
    assert(tree[index].in_bounds());
}

} // verus!
