//! The search frontier: a queue of paths ordered by length so far plus the
//! estimated distance still to go. In the model a node is its path; the
//! executable node also caches its end point, cost and estimate.
use crate::grid::Point;
use vstd::prelude::*;

verus! {

/// The number of steps between two points when nothing is in the way.
pub open spec fn manhattan(a: Point, b: Point) -> int {
    (if a.0 >= b.0 {
        a.0 - b.0
    } else {
        b.0 - a.0
    }) + (if a.1 >= b.1 {
        a.1 - b.1
    } else {
        b.1 - a.1
    })
}

/// The least distance from `p` to one of `targets`; 0 when there is none.
pub open spec fn nearest(targets: Seq<Point>, p: Point) -> int
    decreases targets.len(),
{
    if targets.len() == 0 {
        0
    } else if targets.len() == 1 {
        manhattan(targets[0], p)
    } else {
        let before = nearest(targets.drop_last(), p);
        let here = manhattan(targets.last(), p);
        if before <= here {
            before
        } else {
            here
        }
    }
}

/// The key a path is queued under: its cost, one per step, plus the estimate
/// from its end.
pub open spec fn priority(targets: Seq<Point>, path: Seq<Point>) -> int {
    path.len() - 1 + nearest(targets, path.last())
}

/// Where a path with key `key` enters the queue: before the first path whose
/// key is not greater, or at the back.
pub open spec fn queue_position(targets: Seq<Point>, queue: Seq<Seq<Point>>, key: int) -> int
    decreases queue.len(),
{
    if queue.len() == 0 || priority(targets, queue[0]) <= key {
        0
    } else {
        1 + queue_position(targets, queue.skip(1), key)
    }
}

/// The queue with `path` added. The queue is popped from the back and keys
/// fall from front to back, so the path with the least key leaves first, and
/// of two paths with equal keys the one queued first.
pub open spec fn enqueue(targets: Seq<Point>, queue: Seq<Seq<Point>>, path: Seq<Point>) -> Seq<
    Seq<Point>,
> {
    queue.insert(queue_position(targets, queue, priority(targets, path)), path)
}

/// Keys fall, or stay equal, from the front of the queue to the back.
pub open spec fn ordered(targets: Seq<Point>, queue: Seq<Seq<Point>>) -> bool {
    forall|i: int, j: int|
        0 <= i <= j < queue.len() ==> priority(targets, #[trigger] queue[i]) >= priority(
            targets,
            #[trigger] queue[j],
        )
}

/// The queue holds a path to `q` that is no longer than `len`.
pub open spec fn outpaced(queue: Seq<Seq<Point>>, q: Point, len: int) -> bool {
    exists|i: int| 0 <= i < queue.len() && (#[trigger] queue[i]).last() == q && queue[i].len() <= len
}

/// The place where a path enters the queue lies inside the queue or at its
/// back, every path before it has a greater key, and the path at it, if
/// there is one, has a key that is not greater.
pub proof fn lemma_queue_position(targets: Seq<Point>, queue: Seq<Seq<Point>>, key: int)
    ensures
        0 <= queue_position(targets, queue, key) <= queue.len(),
        forall|i: int|
            0 <= i < queue_position(targets, queue, key) ==> priority(targets, #[trigger] queue[i])
                > key,
        queue_position(targets, queue, key) < queue.len() ==> priority(
            targets,
            queue[queue_position(targets, queue, key)],
        ) <= key,
    decreases queue.len(),
{
    if !(queue.len() == 0 || priority(targets, queue[0]) <= key) {
        let rest = queue.skip(1);
        lemma_queue_position(targets, rest, key);
        let at = queue_position(targets, rest, key);
        assert forall|i: int| 0 <= i < at + 1 implies priority(targets, #[trigger] queue[i])
            > key by {
            if i > 0 {
                assert(queue[i] == rest[i - 1]);
            }
        }
        if at < rest.len() {
            assert(queue[at + 1] == rest[at]);
        }
    }
}

/// The queue after `enqueue` holds what it held before and the new path,
/// and nothing else.
pub proof fn lemma_enqueue_members(targets: Seq<Point>, queue: Seq<Seq<Point>>, path: Seq<Point>)
    ensures
        enqueue(targets, queue, path).len() == queue.len() + 1,
        enqueue(targets, queue, path).contains(path),
        forall|i: int| 0 <= i < queue.len() ==> enqueue(targets, queue, path).contains(#[trigger] queue[i]),
        forall|i: int|
            0 <= i < queue.len() + 1 ==> (#[trigger] enqueue(targets, queue, path)[i]) == path
                || queue.contains(enqueue(targets, queue, path)[i]),
{
    let at = queue_position(targets, queue, priority(targets, path));
    lemma_queue_position(targets, queue, priority(targets, path));
    let after = enqueue(targets, queue, path);
    assert(after[at] == path);
    assert forall|i: int| 0 <= i < queue.len() implies after.contains(#[trigger] queue[i]) by {
        if i < at {
            assert(after[i] == queue[i]);
        } else {
            assert(after[i + 1] == queue[i]);
        }
    }
    assert forall|i: int| 0 <= i < queue.len() + 1 implies (#[trigger] after[i]) == path
        || queue.contains(after[i]) by {
        if i < at {
            assert(after[i] == queue[i]);
        } else if i > at {
            assert(after[i] == queue[i - 1]);
        }
    }
}

/// Queueing a path keeps the queue ordered, so the back of the queue always
/// holds a path with the least key.
pub proof fn lemma_enqueue_ordered(targets: Seq<Point>, queue: Seq<Seq<Point>>, path: Seq<Point>)
    requires
        ordered(targets, queue),
    ensures
        ordered(targets, enqueue(targets, queue, path)),
{
    let key = priority(targets, path);
    let at = queue_position(targets, queue, key);
    lemma_queue_position(targets, queue, key);
    let after = enqueue(targets, queue, path);
    assert forall|i: int, j: int| 0 <= i <= j < after.len() implies priority(
        targets,
        #[trigger] after[i],
    ) >= priority(targets, #[trigger] after[j]) by {
        if i < at && j > at {
            assert(after[i] == queue[i]);
            assert(after[j] == queue[j - 1]);
        } else if i == at && j > at {
            assert(after[j] == queue[j - 1]);
            assert(priority(targets, queue[at]) >= priority(targets, queue[j - 1]));
        } else if i > at {
            assert(after[i] == queue[i - 1]);
            assert(after[j] == queue[j - 1]);
        } else if j < at {
            assert(after[i] == queue[i]);
            assert(after[j] == queue[j]);
        }
    }
}

/// A node of the search: the point reached, the steps taken to reach it, the
/// estimated distance to the nearest target, and the path walked.
pub struct Node {
    pub point: Point,
    pub cost: usize,
    pub heuristic: usize,
    pub path: Vec<Point>,
}

impl Node {
    /// The cached fields agree with the path.
    pub open spec fn well_formed(&self, targets: Seq<Point>) -> bool {
        &&& self.path@.len() > 0
        &&& self.point == self.path@.last()
        &&& self.cost == self.path@.len() - 1
        &&& self.heuristic == nearest(targets, self.point)
    }

    /// The key the node is queued under, wide enough for any path length.
    pub(crate) fn key(&self, Ghost(targets): Ghost<Seq<Point>>) -> (key: u128)
        requires
            self.well_formed(targets),
        ensures
            key == priority(targets, self.path@),
    {
        self.cost as u128 + self.heuristic as u128
    }
}

/// The paths of the queued nodes, front to back.
pub open spec fn paths(queue: Seq<Node>) -> Seq<Seq<Point>> {
    Seq::new(queue.len(), |i: int| queue[i].path@)
}

/// Every queued node is well formed.
pub open spec fn all_well_formed(queue: Seq<Node>, targets: Seq<Point>) -> bool {
    forall|i: int| 0 <= i < queue.len() ==> (#[trigger] queue[i]).well_formed(targets)
}

/// The number of steps between two points when nothing is in the way.
pub fn distance(a: Point, b: Point) -> (steps: usize)
    ensures
        steps == manhattan(a, b),
        steps <= 510,
{
    let dx: i16 = if a.0 >= b.0 {
        a.0 as i16 - b.0 as i16
    } else {
        b.0 as i16 - a.0 as i16
    };
    let dy: i16 = if a.1 >= b.1 {
        a.1 as i16 - b.1 as i16
    } else {
        b.1 as i16 - a.1 as i16
    };
    (dx + dy) as usize
}

/// The least distance from `p` to one of `targets`; 0 when there is none.
pub fn estimate(targets: &Vec<Point>, p: Point) -> (least: usize)
    ensures
        least == nearest(targets@, p),
        least <= 510,
{
    if targets.len() == 0 {
        return 0;
    }
    let mut least = distance(targets[0], p);
    let mut i: usize = 1;
    assert(targets@.take(1).len() == 1);
    while i < targets.len()
        invariant
            1 <= i <= targets.len(),
            least == nearest(targets@.take(i as int), p),
            least <= 510,
        decreases targets.len() - i,
    {
        let here = distance(targets[i], p);
        proof {
            let next = targets@.take(i + 1);
            assert(next.drop_last() =~= targets@.take(i as int));
            assert(next.last() == targets@[i as int]);
        }
        if here < least {
            least = here;
        }
        i += 1;
    }
    assert(targets@.take(targets.len() as int) =~= targets@);
    least
}

/// Whether the queue holds a node at `q` that cost no more than `cost`.
pub(crate) fn is_outpaced(queue: &Vec<Node>, q: Point, cost: usize, Ghost(targets): Ghost<Seq<Point>>) -> (found:
    bool)
    requires
        all_well_formed(queue@, targets),
    ensures
        found == outpaced(paths(queue@), q, cost + 1),
{
    let mut i: usize = 0;
    while i < queue.len()
        invariant
            i <= queue.len(),
            all_well_formed(queue@, targets),
            forall|j: int|
                0 <= j < i ==> !((#[trigger] paths(queue@)[j]).last() == q && paths(queue@)[j].len()
                    <= cost + 1),
        decreases queue.len() - i,
    {
        let node = &queue[i];
        assert(node.well_formed(targets));
        assert(paths(queue@)[i as int] == node.path@);
        if node.point.0 == q.0 && node.point.1 == q.1 && node.cost <= cost {
            return true;
        }
        i += 1;
    }
    false
}

/// Adds a node to the queue at the place its key gives it.
pub(crate) fn push_node(queue: &mut Vec<Node>, node: Node, Ghost(targets): Ghost<Seq<Point>>)
    requires
        all_well_formed(old(queue)@, targets),
        node.well_formed(targets),
    ensures
        all_well_formed(final(queue)@, targets),
        paths(final(queue)@) == enqueue(targets, paths(old(queue)@), node.path@),
{
    let key = node.key(Ghost(targets));
    let ghost before = paths(queue@);
    let mut i: usize = 0;
    let mut scanning = true;
    assert(before.skip(0) =~= before);
    while scanning && i < queue.len()
        invariant
            i <= queue.len(),
            queue@ == old(queue)@,
            before == paths(queue@),
            all_well_formed(queue@, targets),
            queue_position(targets, before, key as int) == i + queue_position(
                targets,
                before.skip(i as int),
                key as int,
            ),
            !scanning ==> i < queue.len() && priority(targets, before[i as int]) <= key,
        decreases queue.len() - i + (if scanning { 1int } else { 0int }),
    {
        assert(queue[i as int].well_formed(targets));
        assert(before.skip(i as int)[0] == queue[i as int].path@);
        if queue[i].key(Ghost(targets)) <= key {
            scanning = false;
        } else {
            assert(before.skip(i as int).skip(1) =~= before.skip(i + 1));
            i += 1;
        }
    }
    assert(queue_position(targets, before, key as int) == i) by {
        if i < queue.len() {
            assert(before.skip(i as int)[0] == before[i as int]);
        }
    }
    let ghost added = node.path@;
    queue.insert(i, node);
    assert(paths(queue@) =~= before.insert(i as int, added));
}

} // verus!
