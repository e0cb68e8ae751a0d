//! The frontier of a search: the nodes that were reached and not yet expanded,
//! kept so that the one with the lowest estimate stands last.

use vstd::prelude::*;
use crate::geometry::Point;

verus! {

/// A point that a search has reached.
#[derive(Debug, Clone, Copy)]
pub struct DiscoveredNode {
    pub point: Point,
    /// The cost of the way from the source to `point`.
    pub cost: u64,
    /// `cost` and the estimate of what is left to the destination.
    pub estimated: u64,
    /// The point before `point` on that way; none for the source.
    pub previous: Option<Point>,
}

/// The frontier. Read front to back, estimates fall: `pop` takes the last node.
pub struct NextNodeQueue {
    nodes: Vec<DiscoveredNode>,
}

/// The first index from `from` on at which `s` holds a node for `p`; the length
/// of `s` where there is none.
pub open spec fn position_of(s: Seq<DiscoveredNode>, p: Point, from: int) -> int
    decreases s.len() - from,
{
    if from >= s.len() {
        s.len() as int
    } else if s[from].point == p {
        from
    } else {
        position_of(s, p, from + 1)
    }
}

/// The first index from `from` on at which `s` holds a node whose estimate is
/// at most `bound`; the length of `s` where there is none.
pub open spec fn first_not_above(s: Seq<DiscoveredNode>, bound: int, from: int) -> int
    decreases s.len() - from,
{
    if from >= s.len() {
        s.len() as int
    } else if s[from].estimated <= bound {
        from
    } else {
        first_not_above(s, bound, from + 1)
    }
}

/// The frontier `s` after `node` was handed in.
///
/// Where `s` holds no node for the point of `node`, `node` goes in before the
/// first node with a strictly lower estimate. Where it holds one at a higher
/// cost, `node` takes its place and moves back to stand before the first later
/// node whose estimate is not higher. Where it holds one at the same or a lower
/// cost, nothing changes.
pub open spec fn inserted(s: Seq<DiscoveredNode>, node: DiscoveredNode) -> Seq<DiscoveredNode> {
    let i = position_of(s, node.point, 0);
    if i < s.len() {
        if node.cost < s[i].cost {
            moved(s, node, i, first_not_above(s, node.estimated as int, i + 1))
        } else {
            s
        }
    } else {
        s.insert(first_not_above(s, node.estimated - 1, 0), node)
    }
}

/// `node` may be handed in to `s` without harm to the order: where it takes
/// the place of a dearer node for its point, its estimate is no higher than
/// that node's.
pub open spec fn fits(s: Seq<DiscoveredNode>, node: DiscoveredNode) -> bool {
    forall|i: int|
        0 <= i < s.len() && (#[trigger] s[i]).point == node.point && node.cost < s[i].cost
            ==> node.estimated <= s[i].estimated
}

/// Estimates fall from front to back.
pub open spec fn descending(s: Seq<DiscoveredNode>) -> bool {
    forall|i: int, j: int| 0 <= i <= j < s.len() ==> s[i].estimated >= s[j].estimated
}

/// No two nodes are for the same point.
pub open spec fn distinct_points(s: Seq<DiscoveredNode>) -> bool {
    forall|i: int, j: int| 0 <= i < j < s.len() ==> s[i].point != s[j].point
}

/// `s` holds a node for `p`.
pub open spec fn holds_point(s: Seq<DiscoveredNode>, p: Point) -> bool {
    exists|i: int| 0 <= i < s.len() && (#[trigger] s[i]).point == p
}

/// What `position_of` returns is in range, points at a node for `p` if it
/// points at one at all, and no node for `p` stands between `from` and it.
pub proof fn lemma_position_of(s: Seq<DiscoveredNode>, p: Point, from: int)
    requires
        0 <= from <= s.len(),
    ensures
        from <= position_of(s, p, from) <= s.len(),
        position_of(s, p, from) < s.len() ==> s[position_of(s, p, from)].point == p,
        forall|j: int| from <= j < position_of(s, p, from) ==> (#[trigger] s[j]).point != p,
    decreases s.len() - from,
{
    if from < s.len() && s[from].point != p {
        lemma_position_of(s, p, from + 1);
    }
}

/// What `first_not_above` returns is in range, points at a node with an
/// estimate of at most `bound` if it points at one at all, and every node
/// between `from` and it has a higher estimate.
pub proof fn lemma_first_not_above(s: Seq<DiscoveredNode>, bound: int, from: int)
    requires
        0 <= from <= s.len(),
    ensures
        from <= first_not_above(s, bound, from) <= s.len(),
        first_not_above(s, bound, from) < s.len() ==> s[first_not_above(s, bound, from)].estimated
            <= bound,
        forall|j: int|
            from <= j < first_not_above(s, bound, from) ==> (#[trigger] s[j]).estimated > bound,
    decreases s.len() - from,
{
    if from < s.len() && s[from].estimated > bound {
        lemma_first_not_above(s, bound, from + 1);
    }
}

/// `s` with the node at `i` taken out and `node` put in before index `end`.
pub open spec fn moved(s: Seq<DiscoveredNode>, node: DiscoveredNode, i: int, end: int) -> Seq<
    DiscoveredNode,
> {
    s.subrange(0, i) + s.subrange(i + 1, end) + seq![node] + s.subrange(end, s.len() as int)
}

/// Where each node of `moved` comes from.
pub proof fn lemma_moved(s: Seq<DiscoveredNode>, node: DiscoveredNode, i: int, end: int)
    requires
        0 <= i < end <= s.len(),
    ensures
        moved(s, node, i, end).len() == s.len(),
        forall|k: int| 0 <= k < i ==> #[trigger] moved(s, node, i, end)[k] == s[k],
        forall|k: int| i <= k < end - 1 ==> #[trigger] moved(s, node, i, end)[k] == s[k + 1],
        moved(s, node, i, end)[end - 1] == node,
        forall|k: int| end <= k < s.len() ==> #[trigger] moved(s, node, i, end)[k] == s[k],
{
}

/// Every node of the frontier after `node` was handed in is `node` or was in
/// the frontier before, and every point that had a node still has one.
pub proof fn lemma_inserted_members(s: Seq<DiscoveredNode>, node: DiscoveredNode)
    ensures
        forall|k: int|
            0 <= k < inserted(s, node).len() ==> (#[trigger] inserted(s, node)[k]) == node
                || s.contains(inserted(s, node)[k]),
        holds_point(inserted(s, node), node.point),
        forall|p: Point| holds_point(s, p) ==> holds_point(inserted(s, node), p),
{
    let r = inserted(s, node);
    let i = position_of(s, node.point, 0);
    lemma_position_of(s, node.point, 0);
    if i < s.len() {
        if node.cost < s[i].cost {
            let end = first_not_above(s, node.estimated as int, i + 1);
            lemma_first_not_above(s, node.estimated as int, i + 1);
            lemma_moved(s, node, i, end);
            assert(r == moved(s, node, i, end));
            assert(r[end - 1].point == node.point);
            assert forall|p: Point| holds_point(s, p) implies holds_point(r, p) by {
                let j = choose|j: int| 0 <= j < s.len() && (#[trigger] s[j]).point == p;
                if j < i {
                    assert(r[j].point == p);
                } else if j == i {
                    assert(r[end - 1].point == p);
                } else if j < end {
                    assert(r[j - 1].point == p);
                } else {
                    assert(r[j].point == p);
                }
            }
            assert forall|k: int| 0 <= k < r.len() implies (#[trigger] r[k]) == node || s.contains(
                r[k],
            ) by {
                if k < i {
                    assert(r[k] == s[k]);
                } else if k < end - 1 {
                    assert(r[k] == s[k + 1]);
                } else if k >= end {
                    assert(r[k] == s[k]);
                }
            }
        } else {
            assert(s[i].point == node.point);
            assert forall|k: int| 0 <= k < r.len() implies (#[trigger] r[k]) == node || s.contains(
                r[k],
            ) by {
                assert(r[k] == s[k]);
            }
        }
    } else {
        let at = first_not_above(s, node.estimated - 1, 0);
        lemma_first_not_above(s, node.estimated - 1, 0);
        assert(r[at] == node);
        assert forall|p: Point| holds_point(s, p) implies holds_point(r, p) by {
            let j = choose|j: int| 0 <= j < s.len() && (#[trigger] s[j]).point == p;
            if j < at {
                assert(r[j].point == p);
            } else {
                assert(r[j + 1].point == p);
            }
        }
        assert forall|k: int| 0 <= k < r.len() implies (#[trigger] r[k]) == node || s.contains(
            r[k],
        ) by {
            if k < at {
                assert(r[k] == s[k]);
            } else if k > at {
                assert(r[k] == s[k - 1]);
            }
        }
    }
}

/// Handing a node in leaves no point with two nodes.
pub proof fn lemma_inserted_distinct(s: Seq<DiscoveredNode>, node: DiscoveredNode)
    requires
        distinct_points(s),
    ensures
        distinct_points(inserted(s, node)),
{
    let r = inserted(s, node);
    let i = position_of(s, node.point, 0);
    lemma_position_of(s, node.point, 0);
    if i < s.len() {
        if node.cost < s[i].cost {
            let end = first_not_above(s, node.estimated as int, i + 1);
            lemma_first_not_above(s, node.estimated as int, i + 1);
            lemma_moved(s, node, i, end);
            assert(r == moved(s, node, i, end));
        }
    } else {
        let at = first_not_above(s, node.estimated - 1, 0);
        lemma_first_not_above(s, node.estimated - 1, 0);
    }
}

/// Handing a node in keeps the estimates falling from front to back, provided
/// that a node which takes the place of another has no higher estimate.
pub proof fn lemma_inserted_descending(s: Seq<DiscoveredNode>, node: DiscoveredNode)
    requires
        descending(s),
        fits(s, node),
    ensures
        descending(inserted(s, node)),
{
    let r = inserted(s, node);
    let i = position_of(s, node.point, 0);
    lemma_position_of(s, node.point, 0);
    if i < s.len() {
        if node.cost < s[i].cost {
            let end = first_not_above(s, node.estimated as int, i + 1);
            lemma_first_not_above(s, node.estimated as int, i + 1);
            lemma_moved(s, node, i, end);
            assert(r == moved(s, node, i, end));
            assert(node.estimated <= s[i].estimated);
        }
    } else {
        let at = first_not_above(s, node.estimated - 1, 0);
        lemma_first_not_above(s, node.estimated - 1, 0);
    }
}

/// With estimates falling from front to back, no node has a lower estimate
/// than the last one, which `pop` takes.
pub proof fn lemma_last_is_lowest(s: Seq<DiscoveredNode>, i: int)
    requires
        descending(s),
        0 <= i < s.len(),
    ensures
        s.last().estimated <= s[i].estimated,
{
}

impl View for NextNodeQueue {
    type V = Seq<DiscoveredNode>;

    /// The nodes, front to back.
    closed spec fn view(&self) -> Seq<DiscoveredNode> {
        self.nodes@
    }
}

impl NextNodeQueue {
    /// Estimates fall from front to back, and no point has two nodes.
    pub open spec fn wf(&self) -> bool {
        descending(self@) && distinct_points(self@)
    }

    /// A frontier without nodes.
    pub fn new() -> (queue: NextNodeQueue)
        ensures
            queue@ == Seq::<DiscoveredNode>::empty(),
            queue.wf(),
    {
        NextNodeQueue { nodes: Vec::new() }
    }

    /// Whether the frontier holds no node.
    pub fn is_empty(&self) -> (r: bool)
        ensures
            r == (self@.len() == 0),
    {
        self.nodes.len() == 0
    }

    /// Takes the last node out: under `wf`, one with the lowest estimate.
    pub fn pop(&mut self) -> (node: Option<DiscoveredNode>)
        ensures
            old(self)@.len() == 0 ==> node.is_none() && final(self)@ == old(self)@,
            old(self)@.len() > 0 ==> node == Some(old(self)@.last()) && final(self)@ == old(
                self,
            )@.drop_last(),
            old(self).wf() ==> final(self).wf(),
            old(self).wf() ==> forall|i: int|
                0 <= i < old(self)@.len() ==> node.unwrap().estimated <= (#[trigger] old(
                    self,
                )@[i]).estimated,
    {
        proof {
            let s = self.nodes@;
            if s.len() > 0 && descending(s) && distinct_points(s) {
                let rest = s.drop_last();
                assert forall|i: int, j: int| 0 <= i <= j < rest.len() implies rest[i].estimated
                    >= rest[j].estimated by {
                    assert(rest[i] == s[i] && rest[j] == s[j]);
                }
                assert forall|i: int, j: int| 0 <= i < j < rest.len() implies rest[i].point
                    != rest[j].point by {
                    assert(rest[i] == s[i] && rest[j] == s[j]);
                }
            }
        }
        self.nodes.pop()
    }

    /// Hands `node` in: see `inserted`. The queue stays in order where `node`
    /// fits it.
    pub fn insert(&mut self, node: DiscoveredNode)
        ensures
            final(self)@ == inserted(old(self)@, node),
            old(self).wf() && fits(old(self)@, node) ==> final(self).wf(),
    {
        let ghost s = self.nodes@;
        let ghost below = node.estimated - 1;
        proof {
            if descending(s) && distinct_points(s) && fits(s, node) {
                lemma_inserted_distinct(s, node);
                lemma_inserted_descending(s, node);
            }
        }
        let mut insert_location: Option<usize> = None;
        let mut i: usize = 0;
        while i < self.nodes.len()
            invariant
                i <= self.nodes.len(),
                self.nodes@ == s,
                s == old(self)@,
                old(self).wf() && fits(s, node) ==> descending(inserted(s, node))
                    && distinct_points(inserted(s, node)),
                below == node.estimated - 1,
                position_of(s, node.point, 0) == position_of(s, node.point, i as int),
                match insert_location {
                    Some(l) => l < i && first_not_above(s, below, 0) == l,
                    None => first_not_above(s, below, 0) == first_not_above(s, below, i as int),
                },
            decreases self.nodes.len() - i,
        {
            if self.nodes[i].point == node.point {
                assert(position_of(s, node.point, i as int) == i);
                if node.cost < self.nodes[i].cost {
                    let mut end: usize = i + 1;
                    while end < self.nodes.len() && self.nodes[end].estimated > node.estimated
                        invariant
                            i < end <= self.nodes.len(),
                            self.nodes@ == s,
                            first_not_above(s, node.estimated as int, i + 1) == first_not_above(
                                s,
                                node.estimated as int,
                                end as int,
                            ),
                        decreases self.nodes.len() - end,
                    {
                        end += 1;
                    }
                    assert(first_not_above(s, node.estimated as int, end as int) == end);
                    self.nodes.remove(i);
                    self.nodes.insert(end - 1, node);
                    proof {
                        assert(self.nodes@ =~= moved(s, node, i as int, end as int));
                    }
                }
                return ;
            }
            if node.estimated > self.nodes[i].estimated {
                if insert_location.is_none() {
                    insert_location = Some(i);
                }
            }
            i += 1;
        }
        let location: usize = match insert_location {
            Some(l) => l,
            None => self.nodes.len(),
        };
        assert(position_of(s, node.point, 0) == s.len());
        assert(first_not_above(s, below, 0) == location);
        self.nodes.insert(location, node);
    }

    /// Takes every node out.
    pub fn clear(&mut self)
        ensures
            final(self)@ == Seq::<DiscoveredNode>::empty(),
            final(self).wf(),
    {
        self.nodes.clear();
    }
}

} // verus!
