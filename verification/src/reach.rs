//! Edges, paths and reachability, and the breadth-first search that decides
//! them.

use crate::sets::lemma_distinct_u32_bound;
use crate::sets::lemma_push_to_set;
use crate::sets::members;
use std::collections::HashMap;
use std::collections::HashSet;
use std::collections::VecDeque;
use vstd::prelude::*;
use vstd::std_specs::hash::group_hash_axioms;

verus! {

broadcast use group_hash_axioms;

/// The edges of a graph: for each source, the set of its targets.
pub type Edges = Map<u32, Set<u32>>;

/// The edges that an index holds.
pub open spec fn edges_of(index: Map<u32, HashSet<u32>>) -> Edges {
    index.map_values(|s: HashSet<u32>| s@)
}

/// Whether there is an edge from `a` to `b`.
pub open spec fn has_edge(e: Edges, a: u32, b: u32) -> bool {
    e.contains_key(a) && e[a].contains(b)
}

/// The targets of the edges from `a`.
pub open spec fn targets(e: Edges, a: u32) -> Set<u32> {
    if e.contains_key(a) {
        e[a]
    } else {
        Set::empty()
    }
}

/// Whether a sequence of at least two notes follows edges from each note to
/// the next.
pub open spec fn is_path(e: Edges, p: Seq<u32>) -> bool {
    p.len() >= 2 && forall|i: int| 0 <= i < p.len() - 1 ==> has_edge(e, #[trigger] p[i], p[i + 1])
}

/// Whether `b` can be reached from `a` over one edge or more.
pub open spec fn reaches(e: Edges, a: u32, b: u32) -> bool {
    exists|p: Seq<u32>| is_path(e, p) && p[0] == a && p.last() == b
}

/// Whether a set holds the target of every edge from its members.
pub open spec fn closed_under(e: Edges, s: Set<u32>) -> bool {
    forall|a: u32, b: u32| s.contains(a) && has_edge(e, a, b) ==> s.contains(b)
}

/// An edge is a path.
pub proof fn lemma_edge_reaches(e: Edges, a: u32, b: u32)
    requires
        has_edge(e, a, b),
    ensures
        reaches(e, a, b),
{
    let p = seq![a, b];
    assert(is_path(e, p));
    assert(p[0] == a && p.last() == b);
}

/// A path extended by an edge is a path.
pub proof fn lemma_reach_step(e: Edges, a: u32, m: u32, b: u32)
    requires
        reaches(e, a, m),
        has_edge(e, m, b),
    ensures
        reaches(e, a, b),
{
    let p = choose|p: Seq<u32>| is_path(e, p) && p[0] == a && p.last() == m;
    let q = p.push(b);
    assert forall|i: int| 0 <= i < q.len() - 1 implies has_edge(e, #[trigger] q[i], q[i + 1]) by {
        if i < p.len() - 1 {
            assert(has_edge(e, p[i], p[i + 1]));
        }
    }
    assert(is_path(e, q));
    assert(q[0] == a && q.last() == b);
}

/// Every note on a path from a member of a closed set is in the set.
pub proof fn lemma_closed_holds_path(e: Edges, s: Set<u32>, p: Seq<u32>, i: int)
    requires
        closed_under(e, s),
        is_path(e, p),
        s.contains(p[0]),
        0 <= i < p.len(),
    ensures
        s.contains(p[i]),
    decreases i,
{
    if i > 0 {
        lemma_closed_holds_path(e, s, p, i - 1);
        assert(has_edge(e, p[i - 1], p[i - 1 + 1]));
    }
}

/// A closed set holds everything that its members reach.
pub proof fn lemma_closed_holds_reachable(e: Edges, s: Set<u32>, a: u32, b: u32)
    requires
        closed_under(e, s),
        s.contains(a),
        reaches(e, a, b),
    ensures
        s.contains(b),
{
    let p = choose|p: Seq<u32>| is_path(e, p) && p[0] == a && p.last() == b;
    lemma_closed_holds_path(e, s, p, p.len() - 1);
}

/// The note before the last on a path is the start or is reached from it.
pub proof fn lemma_last_edge(e: Edges, a: u32, b: u32) -> (m: u32)
    requires
        reaches(e, a, b),
    ensures
        has_edge(e, m, b),
        m == a || reaches(e, a, m),
{
    let p = choose|p: Seq<u32>| is_path(e, p) && p[0] == a && p.last() == b;
    let n = p.len() as int;
    assert(has_edge(e, p[n - 2], p[n - 2 + 1]));
    if n > 2 {
        let q = p.drop_last();
        assert forall|i: int| 0 <= i < q.len() - 1 implies has_edge(e, #[trigger] q[i], q[i + 1]) by {
            assert(has_edge(e, p[i], p[i + 1]));
        }
        assert(is_path(e, q));
        assert(q[0] == a && q.last() == p[n - 2]);
    }
    p[n - 2]
}

/// Searches the graph breadth-first from `start`. With a target, the search
/// ends as soon as an edge to it is met, and tells so. Without one, or where
/// the target is never met, the search returns `start` with everything that
/// it reaches.
pub fn search(index: &HashMap<u32, HashSet<u32>>, start: u32, target: Option<u32>) -> (r: (
    HashSet<u32>,
    bool,
))
    ensures
        r.1 ==> (target matches Some(t) && reaches(edges_of(index@), start, t)),
        !r.1 ==> forall|x: u32|
            r.0@.contains(x) <==> (x == start || reaches(edges_of(index@), start, x)),
        !r.1 ==> (target matches Some(t) ==> !reaches(edges_of(index@), start, t)),
{
    let ghost e = edges_of(index@);
    let mut visited: HashSet<u32> = HashSet::new();
    let mut frontier: VecDeque<u32> = VecDeque::new();
    visited.insert(start);
    frontier.push_back(start);
    let ghost mut queue: Seq<u32> = Seq::<u32>::empty().push(start);
    let ghost mut head: int = 0;
    assert(queue.to_set() =~= visited@) by {
        lemma_push_to_set(Seq::<u32>::empty(), start);
        assert(Seq::<u32>::empty().to_set() =~= Set::<u32>::empty());
    }
    assert(frontier@ =~= queue.subrange(head, queue.len() as int));
    while frontier.len() > 0
        invariant
            e == edges_of(index@),
            0 <= head <= queue.len(),
            frontier@ == queue.subrange(head, queue.len() as int),
            queue.len() >= 1,
            queue[0] == start,
            queue.no_duplicates(),
            queue.to_set() == visited@,
            forall|x: u32| visited@.contains(x) ==> x == start || reaches(e, start, x),
            forall|k: int, d: u32|
                0 <= k < head && has_edge(e, #[trigger] queue[k], d) ==> #[trigger] visited@.contains(
                    d,
                ),
            target matches Some(t) ==> forall|k: int|
                0 <= k < head ==> !has_edge(e, #[trigger] queue[k], t),
        decreases 0x1_0000_0000 - head,
    {
        proof {
            lemma_distinct_u32_bound(queue);
        }
        let current = match frontier.pop_front() {
            Some(next) => next,
            None => start,
        };
        assert(current == queue[head]);
        assert(visited@.contains(current)) by {
            assert(queue.to_set().contains(current));
        }
        proof {
            head = head + 1;
            assert(frontier@ =~= queue.subrange(head, queue.len() as int));
        }
        match index.get(&current) {
            Some(set) => {
                match target {
                    Some(t) => {
                        if set.contains(&t) {
                            proof {
                                assert(has_edge(e, current, t));
                                if current == start {
                                    lemma_edge_reaches(e, start, t);
                                } else {
                                    lemma_reach_step(e, start, current, t);
                                }
                            }
                            return (visited, true);
                        }
                    },
                    None => {},
                }
                let list = members(set);
                let mut j: usize = 0;
                while j < list.len()
                    invariant
                        e == edges_of(index@),
                        j <= list.len(),
                        1 <= head <= queue.len(),
                        frontier@ == queue.subrange(head, queue.len() as int),
                        queue[0] == start,
                        queue[head - 1] == current,
                        list@.to_set() == e[current],
                        e.contains_key(current),
                        current == start || reaches(e, start, current),
                        queue.no_duplicates(),
                        queue.to_set() == visited@,
                        forall|x: u32| visited@.contains(x) ==> x == start || reaches(e, start, x),
                        forall|k: int, d: u32|
                            0 <= k < head - 1 && has_edge(e, #[trigger] queue[k], d)
                                ==> #[trigger] visited@.contains(d),
                        forall|m: int| 0 <= m < j ==> visited@.contains(#[trigger] list@[m]),
                        target matches Some(t) ==> forall|k: int|
                            0 <= k < head ==> !has_edge(e, #[trigger] queue[k], t),
                    decreases list.len() - j,
                {
                    let d = list[j];
                    if !visited.contains(&d) {
                        proof {
                            assert(list@.to_set().contains(d));
                            assert(has_edge(e, current, d));
                            if current == start {
                                lemma_edge_reaches(e, start, d);
                            } else {
                                lemma_reach_step(e, start, current, d);
                            }
                            lemma_push_to_set(queue, d);
                            assert(!queue.contains(d)) by {
                                assert(queue.contains(d) <==> queue.to_set().contains(d));
                            }
                        }
                        visited.insert(d);
                        frontier.push_back(d);
                        proof {
                            queue = queue.push(d);
                            assert(frontier@ =~= queue.subrange(head, queue.len() as int));
                        }
                    }
                    j = j + 1;
                }
                proof {
                    assert forall|d: u32| has_edge(e, current, d) implies visited@.contains(d) by {
                        assert(list@.to_set().contains(d));
                        let m = choose|m: int| 0 <= m < list@.len() && list@[m] == d;
                        assert(visited@.contains(list@[m]));
                    }
                }
            },
            None => {},
        }
    }
    proof {
        assert(head == queue.len());
        assert(closed_under(e, visited@)) by {
            assert forall|a: u32, b: u32| visited@.contains(a) && has_edge(e, a, b) implies visited@.contains(
                b,
            ) by {
                assert(queue.to_set().contains(a));
                let k = choose|k: int| 0 <= k < queue.len() && queue[k] == a;
                assert(has_edge(e, queue[k], b));
            }
        }
        assert(visited@.contains(start)) by {
            assert(queue.to_set().contains(queue[0]));
        }
        assert forall|x: u32| visited@.contains(x) <==> (x == start || reaches(e, start, x)) by {
            if reaches(e, start, x) {
                lemma_closed_holds_reachable(e, visited@, start, x);
            }
        }
        match target {
            Some(t) => {
                if reaches(e, start, t) {
                    let m = lemma_last_edge(e, start, t);
                    assert(visited@.contains(m));
                    assert(queue.to_set().contains(m));
                    let k = choose|k: int| 0 <= k < queue.len() && queue[k] == m;
                    assert(!has_edge(e, queue[k], t));
                }
            },
            None => {},
        }
    }
    (visited, false)
}

} // verus!
