//! Detection of dependency cycles by depth-first search.

use crate::reach::edges_of;
use crate::reach::has_edge;
use crate::reach::is_path;
use crate::reach::Edges;
use crate::sets::keys_of;
use crate::sets::lemma_push_to_set;
use crate::sets::members;
use std::collections::HashMap;
use std::collections::HashSet;
use vstd::prelude::*;
use vstd::relations::injective_on;
use vstd::set_lib::lemma_int_range;
use vstd::set_lib::lemma_len_subset;
use vstd::set_lib::lemma_map_size;
use vstd::set_lib::set_int_range;
use vstd::std_specs::hash::group_hash_axioms;

verus! {

broadcast use group_hash_axioms;

/// Whether a sequence of notes follows edges from a note back to itself.
pub open spec fn is_cycle(e: Edges, c: Seq<u32>) -> bool {
    is_path(e, c) && c[0] == c.last()
}

/// Whether the graph has a cycle.
pub open spec fn has_cycle(e: Edges) -> bool {
    exists|c: Seq<u32>| is_cycle(e, c)
}

/// Whether every note has its place in `finished` behind all the notes
/// that it has edges to.
pub open spec fn targets_finish_first(e: Edges, finished: Seq<u32>) -> bool {
    forall|i: int, w: u32|
        0 <= i < finished.len() && #[trigger] has_edge(e, finished[i], w) ==> exists|j: int|
            0 <= j < i && finished[j] == w
}

/// Whether a sequence follows edges from each note to the next.
pub open spec fn is_chain(e: Edges, p: Seq<u32>) -> bool {
    forall|i: int| 0 <= i < p.len() - 1 ==> has_edge(e, #[trigger] p[i], p[i + 1])
}

/// A finite set of 32-bit numbers has at most 2^32 members.
pub proof fn lemma_u32_set_bound(s: Set<u32>)
    requires
        s.finite(),
    ensures
        s.len() <= 0x1_0000_0000,
{
    let f = |x: u32| x as int;
    let image = s.map(f);
    assert(injective_on(f, s));
    lemma_map_size(s, image, f);
    lemma_int_range(0, 0x1_0000_0000);
    assert(image.subset_of(set_int_range(0, 0x1_0000_0000)));
    lemma_len_subset(image, set_int_range(0, 0x1_0000_0000));
}

/// Along a path that starts at a finished note, every later note has an
/// earlier place in the finishing order.
proof fn lemma_path_descends(e: Edges, finished: Seq<u32>, p: Seq<u32>, start: int, k: int) -> (j:
    int)
    requires
        targets_finish_first(e, finished),
        is_path(e, p),
        0 <= start < finished.len(),
        finished[start] == p[0],
        1 <= k < p.len(),
    ensures
        0 <= j < start,
        finished[j] == p[k],
    decreases k,
{
    if k == 1 {
        assert(has_edge(e, p[0int], p[0int + 1]));
        let j = choose|j: int| 0 <= j < start && finished[j] == p[1];
        j
    } else {
        let prev = lemma_path_descends(e, finished, p, start, k - 1);
        assert(has_edge(e, p[k - 1], p[k - 1 + 1]));
        let j = choose|j: int| 0 <= j < prev && finished[j] == p[k];
        j
    }
}

/// A graph in which every note with an edge is finished behind its targets
/// has no cycle.
proof fn lemma_finished_means_acyclic(e: Edges, finished: Seq<u32>)
    requires
        targets_finish_first(e, finished),
        finished.no_duplicates(),
        forall|a: u32| e.contains_key(a) ==> finished.contains(a),
    ensures
        !has_cycle(e),
{
    if has_cycle(e) {
        let c = choose|c: Seq<u32>| is_cycle(e, c);
        assert(has_edge(e, c[0int], c[0int + 1]));
        assert(finished.contains(c[0]));
        let start = choose|i: int| 0 <= i < finished.len() && finished[i] == c[0];
        let j = lemma_path_descends(e, finished, c, start, c.len() - 1);
        assert(finished[j] == finished[start]);
    }
}

/// The part of the path from the first occurrence of `node` on, closed with
/// `node`.
fn cycle_from(path: &Vec<u32>, node: u32, Ghost(e): Ghost<Edges>) -> (r: Vec<u32>)
    requires
        path@.contains(node),
        is_chain(e, path@),
        path@.len() > 0,
        has_edge(e, path@.last(), node),
    ensures
        is_cycle(e, r@),
        2 <= r@.len() <= path@.len() + 1,
        r@ == path@.subrange(path@.len() + 1 - r@.len(), path@.len() as int).push(node),
{
    let mut pos: usize = 0;
    while pos < path.len() && path[pos] != node
        invariant
            pos <= path.len(),
            forall|k: int| 0 <= k < pos ==> path@[k] != node,
        decreases path.len() - pos,
    {
        pos = pos + 1;
    }
    assert(pos < path.len()) by {
        let k = choose|k: int| 0 <= k < path@.len() && path@[k] == node;
        if pos >= path.len() {
            assert(path@[k] != node);
        }
    }
    let mut cycle: Vec<u32> = Vec::new();
    let mut i: usize = pos;
    while i < path.len()
        invariant
            pos <= i <= path.len(),
            cycle@ == path@.subrange(pos as int, i as int),
        decreases path.len() - i,
    {
        cycle.push(path[i]);
        assert(path@.subrange(pos as int, i as int + 1) =~= path@.subrange(
            pos as int,
            i as int,
        ).push(path@[i as int]));
        i = i + 1;
    }
    cycle.push(node);
    proof {
        let c = cycle@;
        let tail = path@.subrange(pos as int, path@.len() as int);
        assert(c =~= tail.push(node));
        assert forall|k: int| 0 <= k < c.len() - 1 implies has_edge(e, #[trigger] c[k], c[k + 1]) by {
            if k < tail.len() - 1 {
                assert(has_edge(e, path@[pos + k], path@[pos + k + 1]));
            }
        }
        assert(c[0] == node);
    }
    cycle
}

/// The contents of a list of cycles.
pub open spec fn lists(cycles: Seq<Vec<u32>>) -> Seq<Seq<u32>> {
    cycles.map_values(|c: Vec<u32>| c@)
}

/// The edge that closes a cycle: from its last note but one to its last.
pub open spec fn closing(c: Seq<u32>) -> (u32, u32) {
    (c[c.len() - 2], c[c.len() - 1])
}

/// The closing edges of a list of cycles.
pub open spec fn closing_set(cs: Seq<Seq<u32>>) -> Set<(u32, u32)> {
    Set::new(|p: (u32, u32)| exists|i: int| 0 <= i < cs.len() && #[trigger] closing(cs[i]) == p)
}

/// The graph without a set of edges.
pub open spec fn without(e: Edges, cut: Set<(u32, u32)>) -> Edges {
    Map::new(
        |a: u32| e.contains_key(a),
        |a: u32| Set::new(|b: u32| e[a].contains(b) && !cut.contains((a, b))),
    )
}

/// The pair of a note of a sequence and the note that follows it.
pub open spec fn pair_at(p: Seq<u32>, k: int) -> (u32, u32) {
    (p[k], p[k + 1])
}

/// Whether an edge lies on a path.
pub open spec fn consecutive(p: Seq<u32>, edge: (u32, u32)) -> bool {
    exists|k: int| 0 <= k < p.len() - 1 && #[trigger] pair_at(p, k) == edge
}

/// Whether an edge lies on the path or leads to a note that is finished.
pub open spec fn settled(path: Seq<u32>, on_path: Set<u32>, visited: Set<u32>, edge: (u32, u32)) -> bool {
    consecutive(path, edge) || (visited.contains(edge.1) && !on_path.contains(edge.1))
}

/// What the search keeps true of the cycles recorded so far. No note
/// occurs twice on the path, nor in a cycle before it closes. The closing
/// edges of different cycles differ, and they lead from visited notes to
/// visited notes. No closing edge lies on the path, and none lies in a
/// cycle before its closing edge. Every other edge of a cycle lies on the
/// path or leads to a note that is finished.
#[verifier::opaque]
pub open spec fn sound(cs: Seq<Seq<u32>>, path: Seq<u32>, on_path: Set<u32>, visited: Set<u32>) -> bool {
    &&& path.no_duplicates()
    &&& forall|i: int|
        0 <= i < cs.len() ==> (#[trigger] cs[i]).len() >= 2 && cs[i].drop_last().no_duplicates()
    &&& forall|i: int, j: int|
        0 <= i < cs.len() && 0 <= j < cs.len() && i != j ==> closing(#[trigger] cs[i]) != closing(
            #[trigger] cs[j],
        )
    &&& forall|i: int|
        0 <= i < cs.len() ==> visited.contains(closing(#[trigger] cs[i]).0) && visited.contains(
            closing(cs[i]).1,
        )
    &&& forall|i: int, k: int|
        0 <= i < cs.len() && 0 <= k < path.len() - 1 ==> closing(#[trigger] cs[i]) != #[trigger] pair_at(
            path,
            k,
        )
    &&& forall|i: int, k: int|
        0 <= i < cs.len() && 0 <= k < cs[i].len() - 2 ==> settled(
            path,
            on_path,
            visited,
            #[trigger] pair_at(cs[i], k),
        )
    &&& forall|i: int, k: int, j: int|
        0 <= i < cs.len() && 0 <= j < cs.len() && 0 <= k < cs[i].len() - 2 ==> #[trigger] pair_at(
            cs[i],
            k,
        ) != closing(#[trigger] cs[j])
}

/// Entering an unvisited note keeps the search sound.
proof fn lemma_sound_push(
    cs: Seq<Seq<u32>>,
    path: Seq<u32>,
    on_path: Set<u32>,
    visited: Set<u32>,
    node: u32,
)
    requires
        sound(cs, path, on_path, visited),
        !visited.contains(node),
        path.to_set() == on_path,
        on_path.subset_of(visited),
    ensures
        sound(cs, path.push(node), on_path.insert(node), visited.insert(node)),
{
    reveal(sound);
    let p2 = path.push(node);
    assert(p2.no_duplicates()) by {
        assert forall|a: int, b: int| 0 <= a < p2.len() && 0 <= b < p2.len() && a != b implies p2[a]
            != p2[b] by {
            if a < path.len() && b < path.len() {
                assert(path[a] != path[b]);
            } else if a < path.len() {
                assert(path.to_set().contains(path[a]));
            } else {
                assert(path.to_set().contains(path[b]));
            }
        }
    }
    assert forall|i: int, k: int| 0 <= i < cs.len() && 0 <= k < p2.len() - 1 implies closing(
        #[trigger] cs[i],
    ) != #[trigger] pair_at(p2, k) by {
        if k < path.len() - 1 {
            assert(closing(cs[i]) != pair_at(path, k));
        } else {
            assert(visited.contains(closing(cs[i]).1));
        }
    }
    assert forall|i: int, k: int| 0 <= i < cs.len() && 0 <= k < cs[i].len() - 2 implies settled(
        p2,
        on_path.insert(node),
        visited.insert(node),
        #[trigger] pair_at(cs[i], k),
    ) by {
        let edge = pair_at(cs[i], k);
        assert(settled(path, on_path, visited, edge));
        if consecutive(path, edge) {
            let m = choose|m: int| 0 <= m < path.len() - 1 && #[trigger] pair_at(path, m) == edge;
            assert(pair_at(p2, m) == edge);
        }
    }
}

/// Recording the cycle that an edge back onto the path closes keeps the
/// search sound, where no cycle has been recorded for that edge before.
proof fn lemma_sound_record(
    cs: Seq<Seq<u32>>,
    path: Seq<u32>,
    on_path: Set<u32>,
    visited: Set<u32>,
    dep: u32,
    c: Seq<u32>,
)
    requires
        sound(cs, path, on_path, visited),
        path.len() > 0,
        on_path.contains(dep),
        path.to_set() == on_path,
        on_path.subset_of(visited),
        2 <= c.len() <= path.len() + 1,
        c == path.subrange(path.len() + 1 - c.len(), path.len() as int).push(dep),
        forall|i: int| 0 <= i < cs.len() ==> closing(#[trigger] cs[i]) != (path.last(), dep),
    ensures
        sound(cs.push(c), path, on_path, visited),
        closing(c) == (path.last(), dep),
{
    let cs2 = cs.push(c);
    let pos = path.len() + 1 - c.len();
    let n = cs.len() as int;
    let last = path.last();
    assert(path.to_set().contains(last));
    assert(closing(c) == (last, dep)) by {
        assert(c[c.len() - 2] == path[path.len() - 1]);
    }
    assert(path.no_duplicates()) by {
        reveal(sound);
    }
    assert(c.drop_last().no_duplicates()) by {
        assert(c.drop_last() =~= path.subrange(pos, path.len() as int));
        assert forall|a: int, b: int|
            0 <= a < c.drop_last().len() && 0 <= b < c.drop_last().len() && a != b implies c.drop_last()[a]
            != c.drop_last()[b] by {
            assert(path[pos + a] != path[pos + b]);
        }
    }
    assert forall|k: int| 0 <= k < c.len() - 2 implies #[trigger] pair_at(c, k) == pair_at(
        path,
        pos + k,
    ) && pair_at(c, k).0 != last by {
        assert(path[pos + k] != path[path.len() - 1]);
    }
    assert forall|k: int| 0 <= k < path.len() - 1 implies #[trigger] pair_at(path, k).0 != last by {
        assert(path[k] != path[path.len() - 1]);
    }
    assert(!consecutive(path, (last, dep)));
    assert forall|i: int| 0 <= i < cs2.len() implies (#[trigger] cs2[i]).len() >= 2
        && cs2[i].drop_last().no_duplicates() by {
        reveal(sound);
    }
    assert forall|i: int, j: int| 0 <= i < cs2.len() && 0 <= j < cs2.len() && i != j implies closing(
        #[trigger] cs2[i],
    ) != closing(#[trigger] cs2[j]) by {
        reveal(sound);
        if i < n {
            assert(cs2[i] == cs[i]);
        }
        if j < n {
            assert(cs2[j] == cs[j]);
        }
    }
    assert forall|i: int| 0 <= i < cs2.len() implies visited.contains(closing(#[trigger] cs2[i]).0)
        && visited.contains(closing(cs2[i]).1) by {
        reveal(sound);
        if i < n {
            assert(cs2[i] == cs[i]);
        }
    }
    assert forall|i: int, k: int| 0 <= i < cs2.len() && 0 <= k < path.len() - 1 implies closing(
        #[trigger] cs2[i],
    ) != #[trigger] pair_at(path, k) by {
        reveal(sound);
        if i < n {
            assert(cs2[i] == cs[i]);
        } else {
            assert(pair_at(path, k).0 != last);
        }
    }
    assert forall|i: int, k: int| 0 <= i < cs2.len() && 0 <= k < cs2[i].len() - 2 implies settled(
        path,
        on_path,
        visited,
        #[trigger] pair_at(cs2[i], k),
    ) by {
        reveal(sound);
        if i < n {
            assert(cs2[i] == cs[i]);
            assert(settled(path, on_path, visited, pair_at(cs[i], k)));
        } else {
            assert(pair_at(c, k) == pair_at(path, pos + k));
        }
    }
    assert forall|i: int, k: int, j: int|
        0 <= i < cs2.len() && 0 <= j < cs2.len() && 0 <= k < cs2[i].len() - 2 implies #[trigger] pair_at(
        cs2[i],
        k,
    ) != closing(#[trigger] cs2[j]) by {
        reveal(sound);
        if i < n && j < n {
            assert(cs2[i] == cs[i] && cs2[j] == cs[j]);
        } else if i < n {
            assert(cs2[i] == cs[i]);
            assert(settled(path, on_path, visited, pair_at(cs[i], k)));
        } else if j < n {
            assert(cs2[j] == cs[j]);
            assert(pair_at(c, k) == pair_at(path, pos + k));
            assert(closing(cs[j]) != pair_at(path, pos + k));
        } else {
            assert(pair_at(c, k).0 != last);
        }
    }
    assert(sound(cs2, path, on_path, visited)) by {
        reveal(sound);
    }
}

/// Leaving the last note of the path keeps the search sound.
proof fn lemma_sound_pop(cs: Seq<Seq<u32>>, path: Seq<u32>, on_path: Set<u32>, visited: Set<u32>)
    requires
        sound(cs, path, on_path, visited),
        path.len() > 0,
        path.to_set() == on_path,
        on_path.subset_of(visited),
    ensures
        sound(cs, path.drop_last(), on_path.remove(path.last()), visited),
{
    reveal(sound);
    let p2 = path.drop_last();
    let last = path.last();
    assert(path.to_set().contains(last));
    assert forall|i: int, k: int| 0 <= i < cs.len() && 0 <= k < p2.len() - 1 implies closing(
        #[trigger] cs[i],
    ) != #[trigger] pair_at(p2, k) by {
        assert(closing(cs[i]) != pair_at(path, k));
    }
    assert forall|i: int, k: int| 0 <= i < cs.len() && 0 <= k < cs[i].len() - 2 implies settled(
        p2,
        on_path.remove(last),
        visited,
        #[trigger] pair_at(cs[i], k),
    ) by {
        let edge = pair_at(cs[i], k);
        assert(settled(path, on_path, visited, edge));
        if consecutive(path, edge) {
            let m = choose|m: int| 0 <= m < path.len() - 1 && #[trigger] pair_at(path, m) == edge;
            if m + 1 < path.len() - 1 {
                assert(pair_at(p2, m) == edge);
            } else {
                assert(edge.1 == last);
            }
        }
    }
}

/// A cycle more has its closing edge more.
proof fn lemma_closing_push(cs: Seq<Seq<u32>>, c: Seq<u32>)
    ensures
        closing_set(cs.push(c)) == closing_set(cs).insert(closing(c)),
{
    let cs2 = cs.push(c);
    assert forall|p: (u32, u32)| closing_set(cs2).contains(p) <==> closing_set(cs).insert(
        closing(c),
    ).contains(p) by {
        if closing_set(cs2).contains(p) {
            let i = choose|i: int| 0 <= i < cs2.len() && #[trigger] closing(cs2[i]) == p;
            if i < cs.len() {
                assert(cs2[i] == cs[i]);
                assert(closing(cs[i]) == p);
            }
        }
        if closing_set(cs).contains(p) {
            let i = choose|i: int| 0 <= i < cs.len() && #[trigger] closing(cs[i]) == p;
            assert(cs2[i] == cs[i]);
            assert(closing(cs2[i]) == p);
        }
        if p == closing(c) {
            assert(closing(cs2[cs.len() as int]) == p);
        }
    }
    assert(closing_set(cs2) =~= closing_set(cs).insert(closing(c)));
}

/// A list of cycles that goes on from another has its closing edges too.
proof fn lemma_closing_grows(cs: Seq<Seq<u32>>, more: Seq<Seq<u32>>)
    requires
        cs.len() <= more.len(),
        forall|i: int| 0 <= i < cs.len() ==> #[trigger] more[i] == cs[i],
    ensures
        closing_set(cs).subset_of(closing_set(more)),
{
    assert forall|p: (u32, u32)| closing_set(cs).contains(p) implies closing_set(more).contains(
        p,
    ) by {
        let i = choose|i: int| 0 <= i < cs.len() && #[trigger] closing(cs[i]) == p;
        assert(more[i] == cs[i]);
        assert(closing(more[i]) == p);
    }
}

/// Cutting more edges keeps every note finished behind its targets.
proof fn lemma_cut_more(e: Edges, cut: Set<(u32, u32)>, more: Set<(u32, u32)>, finished: Seq<u32>)
    requires
        cut.subset_of(more),
        targets_finish_first(without(e, cut), finished),
    ensures
        targets_finish_first(without(e, more), finished),
{
    assert forall|i: int, w: u32|
        0 <= i < finished.len() && #[trigger] has_edge(without(e, more), finished[i], w) implies exists|
        j: int,
    | 0 <= j < i && finished[j] == w by {
        assert(has_edge(without(e, cut), finished[i], w));
    }
}

/// A cycle of the graph without any edges cut is a cycle of the graph.
proof fn lemma_nothing_cut(e: Edges)
    requires
        !has_cycle(without(e, Set::<(u32, u32)>::empty())),
    ensures
        !has_cycle(e),
{
    if has_cycle(e) {
        let c = choose|c: Seq<u32>| is_cycle(e, c);
        let rest = without(e, Set::<(u32, u32)>::empty());
        assert forall|i: int| 0 <= i < c.len() - 1 implies has_edge(rest, #[trigger] c[i], c[i + 1]) by {
            assert(has_edge(e, c[i], c[i + 1]));
        }
        assert(is_cycle(rest, c));
    }
}

/// Visits a note that has not been visited, and everything unvisited that
/// it reaches. Every edge met that leads back onto the path is recorded as
/// a cycle.
fn visit(
    index: &HashMap<u32, HashSet<u32>>,
    node: u32,
    visited: &mut HashSet<u32>,
    on_path: &mut HashSet<u32>,
    path: &mut Vec<u32>,
    cycles: &mut Vec<Vec<u32>>,
    Ghost(finished): Ghost<Seq<u32>>,
) -> (r: Ghost<Seq<u32>>)
    requires
        !old(visited)@.contains(node),
        old(visited)@.finite(),
        is_chain(edges_of(index@), old(path)@),
        old(path)@.len() > 0 ==> has_edge(edges_of(index@), old(path)@.last(), node),
        old(path)@.to_set() == old(on_path)@,
        old(on_path)@.subset_of(old(visited)@),
        forall|x: u32| finished.contains(x) <==> (old(visited)@.contains(x) && !old(on_path)@.contains(x)),
        finished.no_duplicates(),
        forall|i: int|
            0 <= i < old(cycles)@.len() ==> is_cycle(edges_of(index@), (#[trigger] old(cycles)@[i])@),
        sound(lists(old(cycles)@), old(path)@, old(on_path)@, old(visited)@),
        targets_finish_first(
            without(edges_of(index@), closing_set(lists(old(cycles)@))),
            finished,
        ),
    ensures
        final(path)@ == old(path)@,
        final(on_path)@ == old(on_path)@,
        old(visited)@.subset_of(final(visited)@),
        final(visited)@.contains(node),
        final(visited)@.finite(),
        final(visited)@.len() > old(visited)@.len(),
        forall|x: u32| r@.contains(x) <==> (final(visited)@.contains(x) && !final(on_path)@.contains(x)),
        r@.no_duplicates(),
        r@.contains(node),
        forall|i: int|
            0 <= i < final(cycles)@.len() ==> is_cycle(
                edges_of(index@),
                (#[trigger] final(cycles)@[i])@,
            ),
        final(cycles)@.len() >= old(cycles)@.len(),
        forall|i: int|
            0 <= i < old(cycles)@.len() ==> #[trigger] final(cycles)@[i] == old(cycles)@[i],
        forall|i: int|
            old(cycles)@.len() <= i < final(cycles)@.len() ==> !old(visited)@.contains(
                closing((#[trigger] final(cycles)@[i])@).0,
            ),
        sound(lists(final(cycles)@), final(path)@, final(on_path)@, final(visited)@),
        targets_finish_first(without(edges_of(index@), closing_set(lists(final(cycles)@))), r@),
        finished.is_prefix_of(r@),
    decreases 0x1_0000_0000 - old(visited)@.len(),
{
    let ghost e = edges_of(index@);
    let ghost path0 = path@;
    let ghost stack0 = on_path@;
    let ghost visited0 = visited@;
    let ghost cycles0 = cycles@;
    proof {
        lemma_u32_set_bound(visited@.insert(node));
        lemma_push_to_set(path@, node);
        lemma_sound_push(lists(cycles@), path@, on_path@, visited@, node);
        assert forall|i: int| 0 <= i < cycles0.len() implies closing(
            (#[trigger] cycles0[i])@,
        ).0 != node by {
            reveal(sound);
            assert(lists(cycles0)[i] == cycles0[i]@);
            assert(visited0.contains(closing(lists(cycles0)[i]).0));
        }
    }
    visited.insert(node);
    on_path.insert(node);
    path.push(node);
    let ghost mut done: Seq<u32> = finished;
    let list: Vec<u32> = match index.get(&node) {
        Some(set) => members(set),
        None => Vec::new(),
    };
    assert(forall|w: u32| has_edge(e, node, w) <==> list@.to_set().contains(w));
    assert(is_chain(e, path@)) by {
        assert forall|i: int| 0 <= i < path@.len() - 1 implies has_edge(
            e,
            #[trigger] path@[i],
            path@[i + 1],
        ) by {
            if i < path0.len() - 1 {
                assert(has_edge(e, path0[i], path0[i + 1]));
            }
        }
    }
    let mut j: usize = 0;
    while j < list.len()
        invariant
            e == edges_of(index@),
            j <= list.len(),
            list@.no_duplicates(),
            forall|w: u32| has_edge(e, node, w) <==> list@.to_set().contains(w),
            path@ == path0.push(node),
            on_path@ == stack0.insert(node),
            is_chain(e, path@),
            path@.to_set() == on_path@,
            on_path@.subset_of(visited@),
            visited0.insert(node).subset_of(visited@),
            visited@.finite(),
            visited0.finite(),
            visited0 == old(visited)@,
            cycles0 == old(cycles)@,
            visited@.len() > visited0.len(),
            visited@.len() <= 0x1_0000_0000,
            !visited0.contains(node),
            forall|x: u32| done.contains(x) <==> (visited@.contains(x) && !on_path@.contains(x)),
            done.no_duplicates(),
            forall|i: int| 0 <= i < cycles@.len() ==> is_cycle(e, (#[trigger] cycles@[i])@),
            cycles@.len() >= cycles0.len(),
            forall|i: int| 0 <= i < cycles0.len() ==> #[trigger] cycles@[i] == cycles0[i],
            forall|i: int|
                cycles0.len() <= i < cycles@.len() ==> !visited0.contains(
                    closing((#[trigger] cycles@[i])@).0,
                ),
            forall|i: int|
                0 <= i < cycles@.len() && closing((#[trigger] cycles@[i])@).0 == node
                    ==> exists|m: int| 0 <= m < j && list@[m] == closing(cycles@[i]@).1,
            sound(lists(cycles@), path@, on_path@, visited@),
            targets_finish_first(without(e, closing_set(lists(cycles@))), done),
            finished.is_prefix_of(done),
            forall|m: int|
                0 <= m < j ==> done.contains(#[trigger] list@[m]) || closing_set(
                    lists(cycles@),
                ).contains((node, list@[m])),
        decreases list.len() - j,
    {
        let dep = list[j];
        let ghost recorded = cycles@;
        assert(has_edge(e, node, dep)) by {
            assert(list@.to_set().contains(dep));
        }
        if !visited.contains(&dep) {
            let ghost before = done;
            let ghost seen = visited@;
            let next = visit(index, dep, visited, on_path, path, cycles, Ghost(done));
            proof {
                done = next@;
                lemma_u32_set_bound(visited@);
                lemma_closing_grows(lists(recorded), lists(cycles@));
                assert(finished.is_prefix_of(done)) by {
                    assert(finished =~= before.subrange(0, finished.len() as int));
                    assert(before =~= done.subrange(0, before.len() as int));
                    assert(finished =~= done.subrange(0, finished.len() as int));
                }
                assert forall|m: int| 0 <= m < j + 1 implies done.contains(#[trigger] list@[m])
                    || closing_set(lists(cycles@)).contains((node, list@[m])) by {
                    if m < j {
                        if before.contains(list@[m]) {
                            let k = choose|k: int| 0 <= k < before.len() && before[k] == list@[m];
                            assert(done[k] == list@[m]);
                        }
                    }
                }
                assert forall|i: int|
                    0 <= i < cycles@.len() && closing((#[trigger] cycles@[i])@).0
                        == node implies exists|m: int|
                    0 <= m < j + 1 && list@[m] == closing(cycles@[i]@).1 by {
                    if i < recorded.len() {
                        assert(cycles@[i] == recorded[i]);
                        let m = choose|m: int| 0 <= m < j && list@[m] == closing(recorded[i]@).1;
                        assert(list@[m] == closing(cycles@[i]@).1);
                    } else {
                        assert(!seen.contains(closing(cycles@[i]@).0));
                    }
                }
                assert forall|i: int| cycles0.len() <= i < cycles@.len() implies !visited0.contains(
                    closing((#[trigger] cycles@[i])@).0,
                ) by {
                    if i < recorded.len() {
                        assert(cycles@[i] == recorded[i]);
                    } else {
                        assert(!seen.contains(closing(cycles@[i]@).0));
                    }
                }
                assert forall|i: int| 0 <= i < cycles0.len() implies #[trigger] cycles@[i]
                    == cycles0[i] by {
                    assert(cycles@[i] == recorded[i]);
                }
            }
        } else if on_path.contains(&dep) {
            assert(path@.contains(dep)) by {
                assert(path@.to_set().contains(dep));
            }
            let cycle = cycle_from(path, dep, Ghost(e));
            proof {
                assert(path@.last() == node);
                assert forall|i: int| 0 <= i < lists(recorded).len() implies closing(
                    #[trigger] lists(recorded)[i],
                ) != (node, dep) by {
                    assert(lists(recorded)[i] == recorded[i]@);
                    if closing(recorded[i]@) == (node, dep) {
                        let m = choose|m: int| 0 <= m < j && list@[m] == closing(recorded[i]@).1;
                        assert(list@[m] == list@[j as int]);
                    }
                }
                lemma_sound_record(lists(recorded), path@, on_path@, visited@, dep, cycle@);
                lemma_closing_push(lists(recorded), cycle@);
                assert(lists(recorded.push(cycle)) =~= lists(recorded).push(cycle@));
                lemma_cut_more(
                    e,
                    closing_set(lists(recorded)),
                    closing_set(lists(recorded.push(cycle))),
                    done,
                );
            }
            cycles.push(cycle);
            proof {
                assert forall|m: int| 0 <= m < j + 1 implies done.contains(#[trigger] list@[m])
                    || closing_set(lists(cycles@)).contains((node, list@[m])) by {
                    if m < j {
                        assert(done.contains(list@[m]) || closing_set(lists(recorded)).contains(
                            (node, list@[m]),
                        ));
                    }
                }
                assert forall|i: int|
                    0 <= i < cycles@.len() && closing((#[trigger] cycles@[i])@).0
                        == node implies exists|m: int|
                    0 <= m < j + 1 && list@[m] == closing(cycles@[i]@).1 by {
                    if i < recorded.len() {
                        assert(cycles@[i] == recorded[i]);
                        let m = choose|m: int| 0 <= m < j && list@[m] == closing(recorded[i]@).1;
                        assert(list@[m] == closing(cycles@[i]@).1);
                    } else {
                        assert(list@[j as int] == closing(cycles@[i]@).1);
                    }
                }
                assert forall|i: int| cycles0.len() <= i < cycles@.len() implies !visited0.contains(
                    closing((#[trigger] cycles@[i])@).0,
                ) by {
                    if i < recorded.len() {
                        assert(cycles@[i] == recorded[i]);
                    }
                }
                assert forall|i: int| 0 <= i < cycles0.len() implies #[trigger] cycles@[i]
                    == cycles0[i] by {
                    assert(cycles@[i] == recorded[i]);
                }
                assert forall|i: int| 0 <= i < cycles@.len() implies is_cycle(
                    e,
                    (#[trigger] cycles@[i])@,
                ) by {
                    if i < recorded.len() {
                        assert(cycles@[i] == recorded[i]);
                    }
                }
            }
        } else {
            assert(done.contains(dep));
        }
        j = j + 1;
    }
    proof {
        lemma_sound_pop(lists(cycles@), path@, on_path@, visited@);
        assert(path@.drop_last() =~= path0);
        assert(!stack0.contains(node));
        assert(on_path@.remove(node) =~= stack0);
    }
    path.pop();
    on_path.remove(&node);
    proof {
        assert(path@ =~= path0);
        assert(on_path@ =~= stack0);
        assert(!done.contains(node));
        let result = done.push(node);
        let rest = without(e, closing_set(lists(cycles@)));
        assert forall|x: u32| result.contains(x) <==> (visited@.contains(x) && !on_path@.contains(
            x,
        )) by {
            lemma_push_to_set(done, node);
            assert(result.contains(x) <==> result.to_set().contains(x));
            assert(done.contains(x) <==> done.to_set().contains(x));
        }
        assert(result.contains(node)) by {
            assert(result[done.len() as int] == node);
        }
        assert(finished.is_prefix_of(result)) by {
            assert(finished =~= done.subrange(0, finished.len() as int));
            assert(finished =~= result.subrange(0, finished.len() as int));
        }
        assert forall|i: int, w: u32| 0 <= i < result.len() && #[trigger] has_edge(
            rest,
            result[i],
            w,
        ) implies exists|k: int| 0 <= k < i && result[k] == w by {
            if i < done.len() {
                assert(has_edge(rest, done[i], w));
                let k = choose|k: int| 0 <= k < i && done[k] == w;
                assert(result[k] == w);
            } else {
                assert(has_edge(e, node, w));
                assert(list@.to_set().contains(w));
                let m = choose|m: int| 0 <= m < list@.len() && list@[m] == w;
                assert(done.contains(list@[m]) || closing_set(lists(cycles@)).contains(
                    (node, list@[m]),
                ));
                let k = choose|k: int| 0 <= k < done.len() && done[k] == w;
                assert(result[k] == w);
            }
        }
    }
    Ghost(done.push(node))
}

/// Searches the whole graph depth-first and returns the cycles met, one for
/// every edge that leads back onto the path of the search. Each cycle
/// starts and ends with the same note and holds no other note twice. The
/// edges that close the cycles differ, none of them lies in a cycle before
/// its closing edge, and without them the graph has no cycle. Which edges
/// close a cycle hangs on the order of the search.
pub fn find_cycles(index: &HashMap<u32, HashSet<u32>>) -> (r: Vec<Vec<u32>>)
    ensures
        forall|i: int| 0 <= i < r@.len() ==> is_cycle(edges_of(index@), (#[trigger] r@[i])@),
        (r@.len() == 0) <==> !has_cycle(edges_of(index@)),
        forall|i: int| 0 <= i < r@.len() ==> (#[trigger] r@[i])@.drop_last().no_duplicates(),
        forall|i: int, j: int|
            0 <= i < r@.len() && 0 <= j < r@.len() && i != j ==> closing((#[trigger] r@[i])@)
                != closing((#[trigger] r@[j])@),
        !has_cycle(without(edges_of(index@), closing_set(lists(r@)))),
        forall|i: int|
            0 <= i < r@.len() ==> is_chain(
                without(edges_of(index@), closing_set(lists(r@))),
                (#[trigger] r@[i])@.drop_last(),
            ),
{
    let ghost e = edges_of(index@);
    let mut cycles: Vec<Vec<u32>> = Vec::new();
    let mut visited: HashSet<u32> = HashSet::new();
    let mut on_path: HashSet<u32> = HashSet::new();
    let mut path: Vec<u32> = Vec::new();
    let ghost mut done: Seq<u32> = Seq::empty();
    let keys = keys_of(index);
    assert(path@.to_set() =~= on_path@);
    assert(sound(lists(cycles@), path@, on_path@, visited@)) by {
        reveal(sound);
    }
    let mut i: usize = 0;
    while i < keys.len()
        invariant
            e == edges_of(index@),
            i <= keys.len(),
            keys@.to_set() == index@.dom(),
            path@.len() == 0,
            visited@.finite(),
            on_path@ == Set::<u32>::empty(),
            forall|x: u32| done.contains(x) <==> visited@.contains(x),
            done.no_duplicates(),
            forall|k: int| 0 <= k < i ==> visited@.contains(#[trigger] keys@[k]),
            forall|k: int| 0 <= k < cycles@.len() ==> is_cycle(e, (#[trigger] cycles@[k])@),
            sound(lists(cycles@), path@, on_path@, visited@),
            targets_finish_first(without(e, closing_set(lists(cycles@))), done),
        decreases keys.len() - i,
    {
        let key = keys[i];
        if !visited.contains(&key) {
            assert(path@.to_set() =~= on_path@);
            let next = visit(index, key, &mut visited, &mut on_path, &mut path, &mut cycles, Ghost(done));
            proof {
                done = next@;
            }
        }
        i = i + 1;
    }
    proof {
        let cs = lists(cycles@);
        let rest = without(e, closing_set(cs));
        assert forall|a: u32| rest.contains_key(a) implies done.contains(a) by {
            assert(keys@.to_set().contains(a));
            let k = choose|k: int| 0 <= k < keys@.len() && keys@[k] == a;
            assert(visited@.contains(keys@[k]));
        }
        lemma_finished_means_acyclic(rest, done);
        if cycles@.len() == 0 {
            assert(closing_set(cs) =~= Set::<(u32, u32)>::empty());
            lemma_nothing_cut(e);
        } else {
            assert(is_cycle(e, cycles@[0]@));
        }
        reveal(sound);
        assert forall|i: int| 0 <= i < cycles@.len() implies (
        #[trigger] cycles@[i])@.drop_last().no_duplicates() by {
            assert(cs[i] == cycles@[i]@);
        }
        assert forall|i: int, j: int|
            0 <= i < cycles@.len() && 0 <= j < cycles@.len() && i != j implies closing(
            (#[trigger] cycles@[i])@,
        ) != closing((#[trigger] cycles@[j])@) by {
            assert(cs[i] == cycles@[i]@ && cs[j] == cycles@[j]@);
        }
        assert forall|i: int| 0 <= i < cycles@.len() implies is_chain(
            rest,
            (#[trigger] cycles@[i])@.drop_last(),
        ) by {
            let c = cycles@[i]@;
            assert(cs[i] == c);
            assert forall|k: int| 0 <= k < c.drop_last().len() - 1 implies has_edge(
                rest,
                #[trigger] c.drop_last()[k],
                c.drop_last()[k + 1],
            ) by {
                assert(has_edge(e, c[k], c[k + 1]));
                let pair = pair_at(cs[i], k);
                if closing_set(cs).contains(pair) {
                    let j = choose|j: int| 0 <= j < cs.len() && #[trigger] closing(cs[j]) == pair;
                    assert(pair_at(cs[i], k) != closing(cs[j]));
                }
            }
        }
    }
    cycles
}

} // verus!
