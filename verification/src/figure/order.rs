//! The storage order of a figure: which segments hang on which, the order
//! in which a figure lists its segments, and why that order puts every
//! parent before its children.

use vstd::prelude::*;

verus! {

/// Every parent reference is the root marker or an index into the sequence.
pub open spec fn valid_parents(parents: Seq<isize>) -> bool {
    &&& parents.len() <= isize::MAX
    &&& forall|i: int| 0 <= i < parents.len() ==> -1 <= #[trigger] parents[i] < parents.len()
}

/// Every segment's parent is stored before the segment itself.
pub open spec fn parents_first(parents: Seq<isize>) -> bool {
    &&& parents.len() <= isize::MAX
    &&& forall|i: int| 0 <= i < parents.len() ==> -1 <= #[trigger] parents[i] < i
}

/// Among the first `k` segments, the indices of those whose parent is `p`,
/// ascending.
pub open spec fn children_upto(parents: Seq<isize>, p: int, k: nat) -> Seq<usize>
    decreases k,
{
    if k == 0 {
        Seq::empty()
    } else {
        let rest = children_upto(parents, p, (k - 1) as nat);
        if k <= parents.len() && parents[k - 1] == p {
            rest.push((k - 1) as usize)
        } else {
            rest
        }
    }
}

/// The indices of the segments whose parent is `p`, ascending.
pub open spec fn children_of(parents: Seq<isize>, p: int) -> Seq<usize> {
    children_upto(parents, p, parents.len())
}

/// The segments below `root`, down to `fuel` levels: first the children of
/// `root` in storage order, then, for each child from the last to the first,
/// what lies below that child, listed the same way.
pub open spec fn indexed(parents: Seq<isize>, root: int, fuel: nat) -> Seq<usize>
    decreases fuel, 0nat,
{
    if fuel == 0 {
        Seq::empty()
    } else {
        let kids = children_of(parents, root);
        kids + expand(parents, kids, 0, (fuel - 1) as nat)
    }
}

/// What lies below each of `kids[from..]`, down to `fuel` levels, the last
/// of them first.
pub open spec fn expand(parents: Seq<isize>, kids: Seq<usize>, from: int, fuel: nat) -> Seq<usize>
    decreases fuel, 1 + kids.len() - from,
{
    if from < 0 || from >= kids.len() {
        Seq::empty()
    } else {
        expand(parents, kids, from + 1, fuel) + indexed(parents, kids[from] as int, fuel)
    }
}

/// The order in which a figure stores its segments: everything below the
/// root marker.
pub open spec fn canonical(parents: Seq<isize>) -> Seq<usize> {
    indexed(parents, -1, parents.len())
}

/// The `k`-th ancestor of `x`: `x` itself for 0, its parent for 1, and so
/// on; -2 once the chain has passed the root marker or left the sequence.
pub open spec fn ancestor(parents: Seq<isize>, x: int, k: nat) -> int
    decreases k,
{
    if k == 0 {
        x
    } else {
        let a = ancestor(parents, x, (k - 1) as nat);
        if 0 <= a < parents.len() {
            parents[a] as int
        } else {
            -2
        }
    }
}

/// `x` lies between 1 and `fuel` levels below `p`.
pub open spec fn below(parents: Seq<isize>, x: int, p: int, fuel: nat) -> bool {
    exists|k: nat| 1 <= k <= fuel && #[trigger] ancestor(parents, x, k) == p
}

/// Every segment reaches the root marker by following parents: the parent
/// references are valid and form no cycle.
pub open spec fn is_forest(parents: Seq<isize>) -> bool {
    &&& valid_parents(parents)
    &&& forall|x: int| 0 <= x < parents.len() ==> #[trigger] below(parents, x, -1, parents.len())
}

/// What `children_upto` holds: children of `p` among the first `k`
/// segments, all of them, ascending.
pub proof fn lemma_children_upto(parents: Seq<isize>, p: int, k: nat)
    requires
        k <= parents.len() <= isize::MAX,
    ensures
        forall|j: int|
            0 <= j < children_upto(parents, p, k).len() ==> {
                let c = #[trigger] children_upto(parents, p, k)[j];
                c < k && parents[c as int] == p
            },
        forall|i: int, j: int|
            0 <= i < j < children_upto(parents, p, k).len() ==> children_upto(parents, p, k)[i]
                < children_upto(parents, p, k)[j],
        forall|c: int|
            0 <= c < k && parents[c] == p ==> children_upto(parents, p, k).contains(c as usize),
    decreases k,
{
    if k > 0 {
        let rest = children_upto(parents, p, (k - 1) as nat);
        lemma_children_upto(parents, p, (k - 1) as nat);
        let now = children_upto(parents, p, k);
        if parents[k - 1] == p {
            assert(now == rest.push((k - 1) as usize));
            assert(now[now.len() - 1] == (k - 1) as usize);
            assert forall|c: int| 0 <= c < k && parents[c] == p implies now.contains(
                c as usize,
            ) by {
                if c < k - 1 {
                    assert(rest.contains(c as usize));
                    let j = choose|j: int| 0 <= j < rest.len() && rest[j] == c as usize;
                    assert(now[j] == c as usize);
                } else {
                    assert(now[now.len() - 1] == c as usize);
                }
            }
        } else {
            assert(now == rest);
        }
    }
}

/// The children of `p` are in range, have `p` as their parent, ascend, and
/// none is missing.
pub proof fn lemma_children_of(parents: Seq<isize>, p: int)
    requires
        parents.len() <= isize::MAX,
    ensures
        forall|j: int|
            0 <= j < children_of(parents, p).len() ==> {
                let c = #[trigger] children_of(parents, p)[j];
                c < parents.len() && parents[c as int] == p
            },
        forall|i: int, j: int|
            0 <= i < j < children_of(parents, p).len() ==> children_of(parents, p)[i]
                < children_of(parents, p)[j],
        forall|c: int|
            0 <= c < parents.len() && parents[c] == p ==> children_of(parents, p).contains(
                c as usize,
            ),
        children_of(parents, p).no_duplicates(),
{
    lemma_children_upto(parents, p, parents.len());
}

/// Ancestors compose: the `b`-th ancestor of the `a`-th ancestor is the
/// `a + b`-th ancestor.
pub proof fn lemma_ancestor_add(parents: Seq<isize>, x: int, a: nat, b: nat)
    ensures
        ancestor(parents, ancestor(parents, x, a), b) == ancestor(parents, x, a + b),
    decreases b,
{
    if b > 0 {
        lemma_ancestor_add(parents, x, a, (b - 1) as nat);
        assert(a + b - 1 == a + (b - 1) as nat);
    }
}

/// Past the root marker there is nothing: no ancestor of -1 or of -2 is a
/// segment or the root marker.
pub proof fn lemma_ancestor_of_none(parents: Seq<isize>, x: int, k: nat)
    requires
        x < 0,
        k >= 1,
    ensures
        ancestor(parents, x, k) == -2,
    decreases k,
{
    if k > 1 {
        lemma_ancestor_of_none(parents, x, (k - 1) as nat);
    } else {
        assert(ancestor(parents, x, 0) == x);
    }
}

/// A step up from a child: the `k + 1`-th ancestor of `x` is the `k`-th
/// ancestor of its parent.
pub proof fn lemma_ancestor_step(parents: Seq<isize>, x: int, k: nat)
    requires
        0 <= x < parents.len(),
    ensures
        ancestor(parents, x, k + 1) == ancestor(parents, parents[x] as int, k),
{
    assert(ancestor(parents, x, 0) == x);
    assert(ancestor(parents, x, 1) == parents[x] as int);
    lemma_ancestor_add(parents, x, 1, k);
}

/// Everything listed below `root` is a segment that lies below `root`, at
/// most `fuel` levels down.
pub proof fn lemma_indexed_sound(parents: Seq<isize>, root: int, fuel: nat)
    requires
        parents.len() <= isize::MAX,
    ensures
        forall|j: int|
            0 <= j < indexed(parents, root, fuel).len() ==> {
                let x = #[trigger] indexed(parents, root, fuel)[j];
                x < parents.len() && below(parents, x as int, root, fuel)
            },
    decreases fuel, 0nat,
{
    if fuel > 0 {
        let kids = children_of(parents, root);
        let rest = expand(parents, kids, 0, (fuel - 1) as nat);
        lemma_children_of(parents, root);
        lemma_expand_sound(parents, root, kids, 0, (fuel - 1) as nat);
        assert forall|j: int| 0 <= j < indexed(parents, root, fuel).len() implies {
            let x = #[trigger] indexed(parents, root, fuel)[j];
            x < parents.len() && below(parents, x as int, root, fuel)
        } by {
            let x = indexed(parents, root, fuel)[j];
            if j < kids.len() {
                assert(x == kids[j]);
                assert(ancestor(parents, x as int, 0) == x);
                assert(ancestor(parents, x as int, 1) == root);
            } else {
                assert(x == rest[j - kids.len()]);
                let k = choose|k: nat|
                    1 <= k <= fuel && #[trigger] ancestor(parents, x as int, k) == root;
                assert(ancestor(parents, x as int, k) == root);
            }
        }
    }
}

/// Everything listed below the children `kids[from..]` of `root` is a
/// segment that lies at least two levels below `root`.
pub proof fn lemma_expand_sound(
    parents: Seq<isize>,
    root: int,
    kids: Seq<usize>,
    from: int,
    fuel: nat,
)
    requires
        parents.len() <= isize::MAX,
        0 <= from,
        forall|i: int|
            0 <= i < kids.len() ==> #[trigger] kids[i] < parents.len() && parents[kids[i] as int]
                == root,
    ensures
        forall|j: int|
            0 <= j < expand(parents, kids, from, fuel).len() ==> {
                let x = #[trigger] expand(parents, kids, from, fuel)[j];
                x < parents.len() && exists|k: nat|
                    2 <= k <= fuel + 1 && #[trigger] ancestor(parents, x as int, k) == root
            },
    decreases fuel, 1 + kids.len() - from,
{
    if from < kids.len() {
        let head = expand(parents, kids, from + 1, fuel);
        let c = kids[from];
        let tail = indexed(parents, c as int, fuel);
        lemma_expand_sound(parents, root, kids, from + 1, fuel);
        lemma_indexed_sound(parents, c as int, fuel);
        assert forall|j: int| 0 <= j < expand(parents, kids, from, fuel).len() implies {
            let x = #[trigger] expand(parents, kids, from, fuel)[j];
            x < parents.len() && exists|k: nat|
                2 <= k <= fuel + 1 && #[trigger] ancestor(parents, x as int, k) == root
        } by {
            let x = expand(parents, kids, from, fuel)[j];
            if j < head.len() {
                assert(x == head[j]);
            } else {
                assert(x == tail[j - head.len()]);
                assert(below(parents, x as int, c as int, fuel));
                let k = choose|k: nat|
                    1 <= k <= fuel && #[trigger] ancestor(parents, x as int, k) == c as int;
                assert(ancestor(parents, x as int, k + 1) == root);
            }
        }
    }
}

/// What lies below one child is part of what lies below the children.
pub proof fn lemma_expand_contains(
    parents: Seq<isize>,
    kids: Seq<usize>,
    from: int,
    i: int,
    fuel: nat,
    x: usize,
)
    requires
        0 <= from <= i < kids.len(),
        indexed(parents, kids[i] as int, fuel).contains(x),
    ensures
        expand(parents, kids, from, fuel).contains(x),
    decreases i - from,
{
    let head = expand(parents, kids, from + 1, fuel);
    let tail = indexed(parents, kids[from] as int, fuel);
    if i == from {
        let j = choose|j: int| 0 <= j < tail.len() && tail[j] == x;
        assert((head + tail)[head.len() + j] == x);
    } else {
        lemma_expand_contains(parents, kids, from + 1, i, fuel, x);
        let j = choose|j: int| 0 <= j < head.len() && head[j] == x;
        assert((head + tail)[j] == x);
    }
}

/// Every segment that lies below `root`, at most `fuel` levels down, is
/// listed below `root`.
pub proof fn lemma_indexed_complete(parents: Seq<isize>, x: int, root: int, k: nat, fuel: nat)
    requires
        parents.len() <= isize::MAX,
        0 <= x < parents.len(),
        root >= -1,
        1 <= k <= fuel,
        ancestor(parents, x, k) == root,
    ensures
        indexed(parents, root, fuel).contains(x as usize),
    decreases k,
{
    let kids = children_of(parents, root);
    let rest = expand(parents, kids, 0, (fuel - 1) as nat);
    lemma_children_of(parents, root);
    if k == 1 {
        assert(ancestor(parents, x, 0) == x);
        assert(kids.contains(x as usize));
        let j = choose|j: int| 0 <= j < kids.len() && kids[j] == x as usize;
        assert((kids + rest)[j] == x as usize);
    } else {
        let c = ancestor(parents, x, (k - 1) as nat);
        assert(0 <= c < parents.len() && parents[c] == root);
        assert(kids.contains(c as usize));
        let i = choose|i: int| 0 <= i < kids.len() && kids[i] == c as usize;
        lemma_indexed_complete(parents, x, c, (k - 1) as nat, (fuel - 1) as nat);
        lemma_expand_contains(parents, kids, 0, i, (fuel - 1) as nat, x as usize);
        let j = choose|j: int| 0 <= j < rest.len() && rest[j] == x as usize;
        assert((kids + rest)[kids.len() + j] == x as usize);
    }
}

/// In what is listed below `root`, every segment that is not a child of
/// `root` comes after its own parent.
pub proof fn lemma_indexed_parent_first(parents: Seq<isize>, root: int, fuel: nat)
    requires
        parents.len() <= isize::MAX,
    ensures
        forall|j: int|
            0 <= j < indexed(parents, root, fuel).len() && parents[(#[trigger] indexed(
                parents,
                root,
                fuel,
            )[j]) as int] != root ==> exists|i: int|
                0 <= i < j && #[trigger] indexed(parents, root, fuel)[i] == parents[indexed(
                    parents,
                    root,
                    fuel,
                )[j] as int],
    decreases fuel, 0nat,
{
    if fuel > 0 {
        let kids = children_of(parents, root);
        let rest = expand(parents, kids, 0, (fuel - 1) as nat);
        let all = indexed(parents, root, fuel);
        lemma_children_of(parents, root);
        lemma_expand_parent_first(parents, kids, 0, (fuel - 1) as nat);
        lemma_indexed_sound(parents, root, fuel);
        assert forall|j: int|
            0 <= j < all.len() && parents[(#[trigger] all[j]) as int] != root implies exists|
            i: int,
        | 0 <= i < j && #[trigger] all[i] == parents[all[j] as int] by {
            let x = all[j];
            assert(j >= kids.len());
            let jj = j - kids.len();
            assert(x == rest[jj]);
            if exists|i: int| 0 <= i < kids.len() && #[trigger] kids[i] == parents[x as int] {
                let i = choose|i: int| 0 <= i < kids.len() && #[trigger] kids[i] == parents[x as int];
                assert(all[i] == parents[x as int]);
            } else {
                let i = choose|i: int| 0 <= i < jj && #[trigger] rest[i] == parents[x as int];
                assert(all[kids.len() + i] == parents[x as int]);
            }
        }
    }
}

/// In what is listed below the children `kids[from..]`, every segment comes
/// after its own parent, unless that parent is one of `kids`.
pub proof fn lemma_expand_parent_first(
    parents: Seq<isize>,
    kids: Seq<usize>,
    from: int,
    fuel: nat,
)
    requires
        parents.len() <= isize::MAX,
        0 <= from,
    ensures
        forall|j: int|
            0 <= j < expand(parents, kids, from, fuel).len() ==> {
                let x = #[trigger] expand(parents, kids, from, fuel)[j];
                ||| exists|i: int| 0 <= i < kids.len() && #[trigger] kids[i] == parents[x as int]
                ||| exists|i: int|
                    0 <= i < j && #[trigger] expand(parents, kids, from, fuel)[i] == parents[x as int]
            },
    decreases fuel, 1 + kids.len() - from,
{
    if from < kids.len() {
        let head = expand(parents, kids, from + 1, fuel);
        let c = kids[from];
        let tail = indexed(parents, c as int, fuel);
        let all = expand(parents, kids, from, fuel);
        lemma_expand_parent_first(parents, kids, from + 1, fuel);
        lemma_indexed_parent_first(parents, c as int, fuel);
        assert forall|j: int| 0 <= j < all.len() implies {
            let x = #[trigger] all[j];
            ||| exists|i: int| 0 <= i < kids.len() && #[trigger] kids[i] == parents[x as int]
            ||| exists|i: int| 0 <= i < j && #[trigger] all[i] == parents[x as int]
        } by {
            let x = all[j];
            if j < head.len() {
                assert(x == head[j]);
                if !(exists|i: int| 0 <= i < kids.len() && #[trigger] kids[i] == parents[x as int]) {
                    let i = choose|i: int| 0 <= i < j && #[trigger] head[i] == parents[x as int];
                    assert(all[i] == parents[x as int]);
                }
            } else {
                let jj = j - head.len();
                assert(x == tail[jj]);
                if parents[x as int] == c as int {
                    assert(kids[from] == parents[x as int]);
                } else {
                    let i = choose|i: int| 0 <= i < jj && #[trigger] tail[i] == parents[x as int];
                    assert(all[head.len() + i] == parents[x as int]);
                }
            }
        }
    }
}

/// No ancestor of `p` is `p` itself. It holds of the root marker, and of
/// every segment that reaches it.
pub open spec fn acyclic_at(parents: Seq<isize>, p: int) -> bool {
    forall|k: nat| k >= 1 ==> #[trigger] ancestor(parents, p, k) != p
}

/// `x` lies below one of `kids[from..]`, at most `fuel` levels down.
pub open spec fn below_kids(
    parents: Seq<isize>,
    kids: Seq<usize>,
    from: int,
    x: int,
    fuel: nat,
) -> bool {
    exists|i: int, k: nat|
        #![trigger ancestor(parents, x, k), kids[i]]
        from <= i < kids.len() && 1 <= k <= fuel && ancestor(parents, x, k) == kids[i]
}

/// A segment lies at one depth only below a `p` that is not its own
/// ancestor.
pub proof fn lemma_depth_unique(parents: Seq<isize>, x: int, p: int, k1: nat, k2: nat)
    requires
        acyclic_at(parents, p),
        ancestor(parents, x, k1) == p,
        ancestor(parents, x, k2) == p,
    ensures
        k1 == k2,
{
    if k1 < k2 {
        lemma_ancestor_add(parents, x, k1, (k2 - k1) as nat);
        assert(ancestor(parents, p, (k2 - k1) as nat) == p);
    } else if k2 < k1 {
        lemma_ancestor_add(parents, x, k2, (k1 - k2) as nat);
        assert(ancestor(parents, p, (k1 - k2) as nat) == p);
    }
}

/// A child of a `root` that is not its own ancestor is not its own ancestor
/// either.
pub proof fn lemma_child_acyclic(parents: Seq<isize>, c: int, root: int)
    requires
        0 <= c < parents.len(),
        parents[c] == root,
        acyclic_at(parents, root),
    ensures
        acyclic_at(parents, c),
{
    assert forall|k: nat| k >= 1 implies #[trigger] ancestor(parents, c, k) != c by {
        if ancestor(parents, c, k) == c {
            lemma_ancestor_step(parents, c, k);
            assert(ancestor(parents, c, k + 1) == root);
            assert(ancestor(parents, root, k) == root);
        }
    }
}

/// Nothing is listed twice below a `root` that is not its own ancestor.
pub proof fn lemma_indexed_no_dup(parents: Seq<isize>, root: int, fuel: nat)
    requires
        parents.len() <= isize::MAX,
        acyclic_at(parents, root),
    ensures
        indexed(parents, root, fuel).no_duplicates(),
    decreases fuel, 0nat,
{
    if fuel > 0 {
        let kids = children_of(parents, root);
        let rest = expand(parents, kids, 0, (fuel - 1) as nat);
        lemma_children_of(parents, root);
        lemma_expand_no_dup(parents, root, kids, 0, (fuel - 1) as nat);
        lemma_expand_sound(parents, root, kids, 0, (fuel - 1) as nat);
        assert forall|i: int, j: int| 0 <= i < kids.len() && 0 <= j < rest.len() implies kids[i]
            != rest[j] by {
            let x = rest[j];
            if kids[i] == x {
                let k = choose|k: nat|
                    2 <= k <= fuel && #[trigger] ancestor(parents, x as int, k) == root;
                assert(ancestor(parents, x as int, 0) == x);
                assert(ancestor(parents, x as int, 1) == root);
                lemma_depth_unique(parents, x as int, root, 1, k);
            }
        }
        vstd::seq_lib::lemma_no_dup_in_concat(kids, rest);
    }
}

/// Nothing is listed twice below distinct children of a `root` that is not
/// its own ancestor, and all of it lies below one of them.
pub proof fn lemma_expand_no_dup(
    parents: Seq<isize>,
    root: int,
    kids: Seq<usize>,
    from: int,
    fuel: nat,
)
    requires
        parents.len() <= isize::MAX,
        0 <= from,
        acyclic_at(parents, root),
        kids.no_duplicates(),
        forall|i: int|
            0 <= i < kids.len() ==> #[trigger] kids[i] < parents.len() && parents[kids[i] as int]
                == root,
    ensures
        expand(parents, kids, from, fuel).no_duplicates(),
        forall|j: int|
            0 <= j < expand(parents, kids, from, fuel).len() ==> below_kids(
                parents,
                kids,
                from,
                (#[trigger] expand(parents, kids, from, fuel)[j]) as int,
                fuel,
            ),
    decreases fuel, 1 + kids.len() - from,
{
    if from < kids.len() {
        let head = expand(parents, kids, from + 1, fuel);
        let c = kids[from];
        let tail = indexed(parents, c as int, fuel);
        let all = expand(parents, kids, from, fuel);
        lemma_expand_no_dup(parents, root, kids, from + 1, fuel);
        lemma_child_acyclic(parents, c as int, root);
        lemma_indexed_no_dup(parents, c as int, fuel);
        lemma_indexed_sound(parents, c as int, fuel);
        assert forall|j: int| 0 <= j < all.len() implies below_kids(
            parents,
            kids,
            from,
            (#[trigger] all[j]) as int,
            fuel,
        ) by {
            let x = all[j];
            if j < head.len() {
                assert(x == head[j]);
                assert(below_kids(parents, kids, from + 1, x as int, fuel));
                let (i, k) = choose|i: int, k: nat|
                    #![trigger ancestor(parents, x as int, k), kids[i]]
                    from + 1 <= i < kids.len() && 1 <= k <= fuel && ancestor(parents, x as int, k)
                        == kids[i];
                assert(from <= i < kids.len() && 1 <= k <= fuel && ancestor(parents, x as int, k)
                    == kids[i]);
            } else {
                assert(x == tail[j - head.len()]);
                assert(below(parents, x as int, c as int, fuel));
                let k = choose|k: nat|
                    1 <= k <= fuel && #[trigger] ancestor(parents, x as int, k) == c as int;
                assert(from <= from < kids.len() && 1 <= k <= fuel && ancestor(
                    parents,
                    x as int,
                    k,
                ) == kids[from]);
            }
        }
        assert forall|a: int, b: int| 0 <= a < head.len() && 0 <= b < tail.len() implies head[a]
            != tail[b] by {
            let x = head[a];
            if x == tail[b] {
                assert(below_kids(parents, kids, from + 1, x as int, fuel));
                let (i, k1) = choose|i: int, k: nat|
                    #![trigger ancestor(parents, x as int, k), kids[i]]
                    from + 1 <= i < kids.len() && 1 <= k <= fuel && ancestor(parents, x as int, k)
                        == kids[i];
                assert(below(parents, x as int, c as int, fuel));
                let k2 = choose|k: nat|
                    1 <= k <= fuel && #[trigger] ancestor(parents, x as int, k) == c as int;
                assert(ancestor(parents, x as int, k1 + 1) == root);
                assert(ancestor(parents, x as int, k2 + 1) == root);
                lemma_depth_unique(parents, x as int, root, k1 + 1, k2 + 1);
                assert(kids[i] == kids[from]);
            }
        }
        vstd::seq_lib::lemma_no_dup_in_concat(head, tail);
    }
}

/// A sequence of `n` distinct indices below `n` holds every index below
/// `n`; one that holds every index below `n` without repeating any has
/// length `n`.
pub proof fn lemma_distinct_indices(order: Seq<usize>, n: nat)
    requires
        n <= usize::MAX,
        order.no_duplicates(),
        forall|j: int| 0 <= j < order.len() ==> #[trigger] order[j] < n,
    ensures
        order.len() <= n,
        order.len() == n ==> forall|x: usize| x < n ==> #[trigger] order.contains(x),
        (forall|x: usize| x < n ==> #[trigger] order.contains(x)) ==> order.len() == n,
{
    let ints = order.map_values(|v: usize| v as int);
    let range = vstd::set_lib::set_int_range(0, n as int);
    assert(ints.no_duplicates()) by {
        assert forall|i: int, j: int| 0 <= i < ints.len() && 0 <= j < ints.len() && i != j implies ints[i]
            != ints[j] by {
            assert(order[i] != order[j]);
        }
    }
    ints.unique_seq_to_set();
    vstd::set_lib::lemma_int_range(0, n as int);
    assert(ints.to_set().subset_of(range)) by {
        assert forall|v: int| ints.to_set().contains(v) implies range.contains(v) by {
            let j = choose|j: int| 0 <= j < ints.len() && ints[j] == v;
            assert(order[j] < n);
        }
    }
    vstd::set_lib::lemma_len_subset(ints.to_set(), range);
    if order.len() == n {
        vstd::set_lib::lemma_subset_equality(ints.to_set(), range);
        assert forall|x: usize| x < n implies #[trigger] order.contains(x) by {
            assert(range.contains(x as int));
            assert(ints.to_set().contains(x as int));
            let j = choose|j: int| 0 <= j < ints.len() && ints[j] == x as int;
            assert(order[j] == x);
        }
    }
    if forall|x: usize| x < n ==> #[trigger] order.contains(x) {
        assert(range.subset_of(ints.to_set())) by {
            assert forall|v: int| range.contains(v) implies ints.to_set().contains(v) by {
                assert(0 <= v < n);
                assert(order.contains(v as usize));
                let j = choose|j: int| 0 <= j < order.len() && order[j] == v as usize;
                assert(ints[j] == v);
            }
        }
        vstd::set_lib::lemma_len_subset(range, ints.to_set());
    }
}

/// The root marker is not its own ancestor.
pub proof fn lemma_root_acyclic(parents: Seq<isize>)
    ensures
        acyclic_at(parents, -1),
{
    assert forall|k: nat| k >= 1 implies #[trigger] ancestor(parents, -1, k) != -1 by {
        lemma_ancestor_of_none(parents, -1, k);
    }
}

/// The storage order of a forest lists every segment once, and each after
/// its parent.
pub proof fn lemma_forest_order(parents: Seq<isize>)
    requires
        is_forest(parents),
    ensures
        canonical(parents).len() == parents.len(),
        canonical(parents).no_duplicates(),
        forall|j: int| 0 <= j < parents.len() ==> #[trigger] canonical(parents)[j] < parents.len(),
        forall|x: usize| x < parents.len() ==> #[trigger] canonical(parents).contains(x),
        forall|j: int|
            0 <= j < parents.len() && parents[(#[trigger] canonical(parents)[j]) as int] != -1
                ==> exists|i: int|
                0 <= i < j && #[trigger] canonical(parents)[i] == parents[canonical(parents)[j] as int],
{
    let n = parents.len();
    let order = canonical(parents);
    lemma_root_acyclic(parents);
    lemma_indexed_no_dup(parents, -1, n);
    lemma_indexed_sound(parents, -1, n);
    lemma_indexed_parent_first(parents, -1, n);
    assert forall|x: usize| x < n implies #[trigger] order.contains(x) by {
        assert(below(parents, x as int, -1, n));
        let k = choose|k: nat| 1 <= k <= n && #[trigger] ancestor(parents, x as int, k) == -1;
        lemma_indexed_complete(parents, x as int, -1, k, n);
    }
    lemma_distinct_indices(order, n);
}

/// Valid parent references form a forest exactly when the storage order
/// has room for every segment.
pub proof fn lemma_forest_by_length(parents: Seq<isize>)
    requires
        valid_parents(parents),
    ensures
        is_forest(parents) <==> canonical(parents).len() == parents.len(),
{
    let n = parents.len();
    let order = canonical(parents);
    if is_forest(parents) {
        lemma_forest_order(parents);
    }
    if order.len() == n {
        lemma_root_acyclic(parents);
        lemma_indexed_no_dup(parents, -1, n);
        lemma_indexed_sound(parents, -1, n);
        lemma_distinct_indices(order, n);
        assert forall|x: int| 0 <= x < n implies #[trigger] below(parents, x, -1, n) by {
            assert(order.contains(x as usize));
            let j = choose|j: int| 0 <= j < order.len() && order[j] == x as usize;
            assert(below(parents, order[j] as int, -1, n));
        }
    }
}

/// Parent references that always lead to a lower rank form a forest.
pub proof fn lemma_ranked_forest(parents: Seq<isize>, rank: Seq<int>)
    requires
        valid_parents(parents),
        rank.len() == parents.len(),
        forall|i: int| 0 <= i < rank.len() ==> 0 <= #[trigger] rank[i] < rank.len(),
        forall|i: int|
            0 <= i < parents.len() && parents[i] >= 0 ==> rank[parents[i] as int] < #[trigger] rank[i],
    ensures
        is_forest(parents),
{
    assert forall|x: int| 0 <= x < parents.len() implies #[trigger] below(
        parents,
        x,
        -1,
        parents.len(),
    ) by {
        lemma_ranked_reaches_root(parents, rank, x);
        let k = choose|k: nat| 1 <= k <= rank[x] + 1 && #[trigger] ancestor(parents, x, k) == -1;
        assert(ancestor(parents, x, k) == -1);
    }
}

/// A segment of rank `r` reaches the root marker in at most `r + 1` steps.
pub proof fn lemma_ranked_reaches_root(parents: Seq<isize>, rank: Seq<int>, x: int)
    requires
        valid_parents(parents),
        rank.len() == parents.len(),
        forall|i: int| 0 <= i < rank.len() ==> 0 <= #[trigger] rank[i] < rank.len(),
        forall|i: int|
            0 <= i < parents.len() && parents[i] >= 0 ==> rank[parents[i] as int] < #[trigger] rank[i],
        0 <= x < parents.len(),
    ensures
        exists|k: nat| 1 <= k <= rank[x] + 1 && #[trigger] ancestor(parents, x, k) == -1,
    decreases rank[x],
{
    assert(ancestor(parents, x, 0) == x);
    if parents[x] == -1 {
        assert(ancestor(parents, x, 1) == -1);
    } else {
        let p = parents[x] as int;
        lemma_ranked_reaches_root(parents, rank, p);
        let k = choose|k: nat| 1 <= k <= rank[p] + 1 && #[trigger] ancestor(parents, p, k) == -1;
        lemma_ancestor_step(parents, x, k);
        assert(ancestor(parents, x, k + 1) == -1);
    }
}

/// Segments stored after their parents form a forest.
pub proof fn lemma_parents_first_forest(parents: Seq<isize>)
    requires
        parents_first(parents),
    ensures
        is_forest(parents),
{
    let rank = Seq::new(parents.len(), |i: int| i);
    lemma_ranked_forest(parents, rank);
}

/// How many segments, the root marker included, a walk below `root` down
/// to `fuel` levels comes to.
pub open spec fn visits(parents: Seq<isize>, root: int, fuel: nat) -> nat
    decreases fuel, 0nat,
{
    if fuel == 0 {
        1
    } else {
        1 + visits_below(parents, children_of(parents, root), 0, (fuel - 1) as nat)
    }
}

/// How many segments walks below each of `kids[from..]` come to.
pub open spec fn visits_below(parents: Seq<isize>, kids: Seq<usize>, from: int, fuel: nat) -> nat
    decreases fuel, 1 + kids.len() - from,
{
    if from < 0 || from >= kids.len() {
        0
    } else {
        visits_below(parents, kids, from + 1, fuel) + visits(parents, kids[from] as int, fuel)
    }
}

/// What lies below each of the first `k` of `kids`, the last of them first.
pub open spec fn expand_first(parents: Seq<isize>, kids: Seq<usize>, k: nat, fuel: nat) -> Seq<usize>
    decreases k,
{
    if k == 0 || k > kids.len() {
        Seq::empty()
    } else {
        indexed(parents, kids[k - 1] as int, fuel) + expand_first(parents, kids, (k - 1) as nat, fuel)
    }
}

/// How many segments walks below each of the first `k` of `kids` come to.
pub open spec fn visits_first(parents: Seq<isize>, kids: Seq<usize>, k: nat, fuel: nat) -> nat
    decreases k,
{
    if k == 0 || k > kids.len() {
        0
    } else {
        visits(parents, kids[k - 1] as int, fuel) + visits_first(parents, kids, (k - 1) as nat, fuel)
    }
}

/// What lies below all of `kids` is what lies below those from `from` on,
/// then what lies below those before `from`.
pub proof fn lemma_expand_first(parents: Seq<isize>, kids: Seq<usize>, from: nat, fuel: nat)
    requires
        from <= kids.len(),
    ensures
        expand(parents, kids, from as int, fuel) + expand_first(parents, kids, from, fuel)
            == expand_first(parents, kids, kids.len(), fuel),
        visits_below(parents, kids, from as int, fuel) + visits_first(parents, kids, from, fuel)
            == visits_first(parents, kids, kids.len(), fuel),
    decreases kids.len() - from,
{
    if from < kids.len() {
        lemma_expand_first(parents, kids, from + 1, fuel);
        let head = expand(parents, kids, from as int + 1, fuel);
        let this = indexed(parents, kids[from as int] as int, fuel);
        let tail = expand_first(parents, kids, from, fuel);
        assert((head + this) + tail =~= head + (this + tail));
    } else {
        assert(Seq::<usize>::empty() + expand_first(parents, kids, from, fuel) =~= expand_first(
            parents,
            kids,
            from,
            fuel,
        ));
    }
}

/// What a walk still has to list: for each pending segment, with the
/// levels left to it, what lies below it; the last pending segment first.
pub open spec fn pending_order(parents: Seq<isize>, pending: Seq<(isize, usize)>) -> Seq<usize>
    decreases pending.len(),
{
    if pending.len() == 0 {
        Seq::empty()
    } else {
        indexed(parents, pending.last().0 as int, pending.last().1 as nat) + pending_order(
            parents,
            pending.drop_last(),
        )
    }
}

/// How many segments a walk still has to come to.
pub open spec fn pending_visits(parents: Seq<isize>, pending: Seq<(isize, usize)>) -> nat
    decreases pending.len(),
{
    if pending.len() == 0 {
        0
    } else {
        visits(parents, pending.last().0 as int, pending.last().1 as nat) + pending_visits(
            parents,
            pending.drop_last(),
        )
    }
}

} // verus!
