//! A pose: where the two points of some of a figure's segments lie,
//! segment by segment.

use crate::maths::Vector2;
use vstd::prelude::*;

verus! {

/// The start and end point of segments, by segment index. It may cover
/// every segment of a figure or only some.
#[derive(Debug, Clone)]
pub struct PoseSnapshot {
    /// Entry `i` is the pose of segment `i`, if the snapshot has one.
    pub poses: Vec<Option<(Vector2, Vector2)>>,
}

/// The poses that `poses` holds, as a map from segment index to start and
/// end point.
pub open spec fn poses_map(poses: Seq<Option<(Vector2, Vector2)>>) -> Map<int, (Vector2, Vector2)> {
    Map::new(|i: int| 0 <= i < poses.len() && poses[i].is_some(), |i: int| poses[i].unwrap())
}

/// The poses among the first `k` entries, with their indices, ascending.
pub open spec fn listed(poses: Seq<Option<(Vector2, Vector2)>>, k: nat) -> Seq<
    (usize, Vector2, Vector2),
>
    decreases k,
{
    if k == 0 {
        Seq::empty()
    } else {
        let rest = listed(poses, (k - 1) as nat);
        if k <= poses.len() && poses[k - 1].is_some() {
            rest.push(((k - 1) as usize, poses[k - 1].unwrap().0, poses[k - 1].unwrap().1))
        } else {
            rest
        }
    }
}

impl View for PoseSnapshot {
    type V = Map<int, (Vector2, Vector2)>;

    open spec fn view(&self) -> Map<int, (Vector2, Vector2)> {
        poses_map(self.poses@)
    }
}

impl PoseSnapshot {
    /// Every point of every pose is in bounds.
    pub open spec fn in_bounds(&self) -> bool {
        forall|i: int| #[trigger]
            self@.contains_key(i) ==> self@[i].0.in_bounds() && self@[i].1.in_bounds()
    }

    /// A snapshot without any pose.
    pub fn new() -> (snapshot: PoseSnapshot)
        ensures
            snapshot@ == Map::<int, (Vector2, Vector2)>::empty(),
            snapshot.poses@.len() == 0,
    {
        let snapshot = PoseSnapshot { poses: Vec::new() };
        assert(snapshot@ =~= Map::<int, (Vector2, Vector2)>::empty());
        snapshot
    }

    /// Sets the pose of segment `index`.
    pub fn insert(&mut self, index: usize, start: Vector2, end: Vector2)
        requires
            index < usize::MAX,
        ensures
            final(self)@ == old(self)@.insert(index as int, (start, end)),
    {
        while self.poses.len() <= index
            invariant
                self@ == old(self)@,
                index < usize::MAX,
            decreases index + 1 - self.poses.len(),
        {
            let ghost before = self@;
            self.poses.push(None);
            assert(self@ =~= before);
        }
        self.poses[index] = Some((start, end));
        assert(self@ =~= old(self)@.insert(index as int, (start, end)));
    }

    /// The pose of segment `index`, if the snapshot has one.
    pub fn get(&self, index: usize) -> (pose: Option<(Vector2, Vector2)>)
        ensures
            pose == if self@.contains_key(index as int) {
                Some(self@[index as int])
            } else {
                None
            },
    {
        if index < self.poses.len() {
            self.poses[index]
        } else {
            None
        }
    }

    /// One more than the highest index the snapshot can hold a pose for.
    pub fn span(&self) -> (n: usize)
        ensures
            n == self.poses@.len(),
            forall|i: int| #[trigger] self@.contains_key(i) ==> 0 <= i < n,
    {
        self.poses.len()
    }

    /// The poses with their segment indices, ascending.
    pub fn entries(&self) -> (list: Vec<(usize, Vector2, Vector2)>)
        ensures
            list@ == listed(self.poses@, self.poses@.len()),
    {
        let mut list: Vec<(usize, Vector2, Vector2)> = Vec::new();
        let mut i: usize = 0;
        while i < self.poses.len()
            invariant
                i <= self.poses.len(),
                list@ == listed(self.poses@, i as nat),
            decreases self.poses.len() - i,
        {
            match self.poses[i] {
                Some((start, end)) => {
                    list.push((i, start, end));
                },
                None => {},
            }
            i += 1;
        }
        list
    }

    /// Whether every point of every pose is in bounds.
    pub fn is_in_bounds(&self) -> (b: bool)
        ensures
            b == self.in_bounds(),
    {
        let mut i: usize = 0;
        while i < self.poses.len()
            invariant
                i <= self.poses.len(),
                forall|k: int|
                    0 <= k < i && #[trigger] self@.contains_key(k) ==> self@[k].0.in_bounds()
                        && self@[k].1.in_bounds(),
            decreases self.poses.len() - i,
        {
            match self.poses[i] {
                Some((start, end)) => {
                    if !start.is_in_bounds() || !end.is_in_bounds() {
                        assert(self@.contains_key(i as int));
                        return false;
                    }
                },
                None => {},
            }
            i += 1;
        }
        true
    }
}

} // verus!
