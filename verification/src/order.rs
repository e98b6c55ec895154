//! The order in which notes are evaluated: every note after the notes that
//! it depends on.

use crate::cycles::has_cycle;
use crate::cycles::is_chain;
use crate::cycles::is_cycle;
use crate::reach::edges_of;
use crate::reach::has_edge;
use crate::reach::Edges;
use crate::sets::lemma_distinct_u32_bound;
use crate::sets::lemma_push_to_set;
use crate::sets::members;
use std::collections::HashMap;
use std::collections::HashSet;
use vstd::prelude::*;
use vstd::seq_lib::lemma_no_dup_in_concat;
use vstd::seq_lib::seq_to_set_distributes_over_add;
use vstd::std_specs::hash::group_hash_axioms;

verus! {

broadcast use group_hash_axioms;

/// The dependencies of `y` among `ids` that are not done.
pub open spec fn pending(e: Edges, ids: Set<u32>, done: Set<u32>, y: u32) -> Set<u32> {
    Set::new(|d: u32| has_edge(e, y, d) && ids.contains(d) && !done.contains(d))
}

/// Whether `order` is an evaluation order of the notes `ids`: it lists
/// notes of `ids`, each once and after all the notes of `ids` that it
/// depends on, and it leaves out only notes with a dependency among `ids`
/// that is left out too.
pub open spec fn is_evaluation_order(e: Edges, ids: Set<u32>, order: Seq<u32>) -> bool {
    &&& order.no_duplicates()
    &&& forall|i: int| 0 <= i < order.len() ==> ids.contains(#[trigger] order[i])
    &&& forall|i: int, d: u32|
        0 <= i < order.len() && #[trigger] has_edge(e, order[i], d) && ids.contains(d)
            ==> exists|j: int| 0 <= j < i && order[j] == d
    &&& forall|y: u32|
        ids.contains(y) && !order.contains(y) ==> exists|d: u32|
            #[trigger] has_edge(e, y, d) && ids.contains(d) && !order.contains(d)
}

/// Whether a note of `ids` is left out of `order`.
pub open spec fn left_out(ids: Set<u32>, order: Seq<u32>, y: u32) -> bool {
    ids.contains(y) && !order.contains(y)
}

/// A chain of `n + 1` notes from `start`, each with an edge to the next,
/// which is a left-out note wherever there is one to go to.
pub open spec fn left_out_chain(e: Edges, ids: Set<u32>, order: Seq<u32>, start: u32, n: nat) -> Seq<
    u32,
>
    decreases n,
{
    if n == 0 {
        seq![start]
    } else {
        let p = left_out_chain(e, ids, order, start, (n - 1) as nat);
        p.push(choose|d: u32| #[trigger] has_edge(e, p.last(), d) && left_out(ids, order, d))
    }
}

/// From a note that an evaluation order leaves out, a chain of left-out
/// notes of any length can be followed.
proof fn lemma_left_out_chain(e: Edges, ids: Set<u32>, order: Seq<u32>, start: u32, n: nat)
    requires
        is_evaluation_order(e, ids, order),
        left_out(ids, order, start),
    ensures
        left_out_chain(e, ids, order, start, n).len() == n + 1,
        is_chain(e, left_out_chain(e, ids, order, start, n)),
        forall|i: int|
            0 <= i <= n ==> left_out(ids, order, #[trigger] left_out_chain(e, ids, order, start, n)[i]),
    decreases n,
{
    if n > 0 {
        lemma_left_out_chain(e, ids, order, start, (n - 1) as nat);
        let p = left_out_chain(e, ids, order, start, (n - 1) as nat);
        let y = p.last();
        assert(left_out(ids, order, p[n - 1]));
        let witness = choose|d: u32|
            #[trigger] has_edge(e, y, d) && ids.contains(d) && !order.contains(d);
        assert(has_edge(e, y, witness) && left_out(ids, order, witness));
        let d = choose|d: u32| #[trigger] has_edge(e, y, d) && left_out(ids, order, d);
        let q = left_out_chain(e, ids, order, start, n);
        assert(q == p.push(d));
        assert forall|i: int| 0 <= i < q.len() - 1 implies has_edge(e, #[trigger] q[i], q[i + 1]) by {
            if i < n - 1 {
                assert(has_edge(e, p[i], p[i + 1]));
            }
        }
        assert forall|i: int| 0 <= i <= n implies left_out(ids, order, #[trigger] q[i]) by {
            if i < n {
                assert(left_out(ids, order, p[i]));
            }
        }
    }
}

/// Where the graph has no cycle, an evaluation order leaves no note out: it
/// lists every note of `ids`, each once.
pub proof fn lemma_order_lists_all(e: Edges, ids: Set<u32>, order: Seq<u32>)
    requires
        is_evaluation_order(e, ids, order),
        !has_cycle(e),
    ensures
        order.to_set() == ids,
        order.no_duplicates(),
{
    assert forall|y: u32| ids.contains(y) implies order.contains(y) by {
        if !order.contains(y) {
            let n: nat = 0x1_0000_0000;
            let p = left_out_chain(e, ids, order, y, n);
            lemma_left_out_chain(e, ids, order, y, n);
            if p.no_duplicates() {
                lemma_distinct_u32_bound(p);
            }
            let (i, j) = choose|i: int, j: int|
                0 <= i < p.len() && 0 <= j < p.len() && i != j && p[i] == p[j];
            let (lo, hi) = if i < j {
                (i, j)
            } else {
                (j, i)
            };
            let c = p.subrange(lo, hi + 1);
            assert forall|k: int| 0 <= k < c.len() - 1 implies has_edge(e, #[trigger] c[k], c[k + 1]) by {
                assert(has_edge(e, p[lo + k], p[lo + k + 1]));
            }
            assert(c[0] == c.last());
            assert(is_cycle(e, c));
        }
    }
    assert(order.to_set() =~= ids) by {
        assert forall|y: u32| order.to_set().contains(y) implies ids.contains(y) by {
            let k = choose|k: int| 0 <= k < order.len() && order[k] == y;
            assert(ids.contains(order[k]));
        }
    }
}

/// The number of members of a list of distinct notes that are in `ids`.
fn count_within(list: &Vec<u32>, ids: &HashSet<u32>) -> (r: usize)
    requires
        list@.no_duplicates(),
    ensures
        r == list@.to_set().intersect(ids@).len(),
        list@.to_set().intersect(ids@).finite(),
{
    let mut count: usize = 0;
    let mut i: usize = 0;
    assert(list@.take(0).to_set().intersect(ids@) =~= Set::<u32>::empty());
    while i < list.len()
        invariant
            i <= list.len(),
            count <= i,
            list@.no_duplicates(),
            count == list@.take(i as int).to_set().intersect(ids@).len(),
            list@.take(i as int).to_set().intersect(ids@).finite(),
        decreases list.len() - i,
    {
        let d = list[i];
        proof {
            let prev = list@.take(i as int);
            let next = list@.take(i as int + 1);
            assert(next =~= prev.push(d));
            lemma_push_to_set(prev, d);
            assert(!prev.to_set().contains(d)) by {
                if prev.contains(d) {
                    let k = choose|k: int| 0 <= k < prev.len() && prev[k] == d;
                    assert(list@[k] == list@[i as int]);
                }
            }
            if ids@.contains(d) {
                assert(next.to_set().intersect(ids@) =~= prev.to_set().intersect(ids@).insert(d));
            } else {
                assert(next.to_set().intersect(ids@) =~= prev.to_set().intersect(ids@));
            }
        }
        if ids.contains(&d) {
            count = count + 1;
        }
        i = i + 1;
    }
    assert(list@.take(list@.len() as int) =~= list@);
    count
}

/// For each note of `ids`, the number of its dependencies among `ids`.
fn initial_degrees(
    forward: &HashMap<u32, HashSet<u32>>,
    ids: &HashSet<u32>,
    list: &Vec<u32>,
) -> (r: HashMap<u32, usize>)
    requires
        list@.to_set() == ids@,
    ensures
        r@.dom() == ids@,
        forall|y: u32|
            ids@.contains(y) ==> r@[y] == (#[trigger] pending(
                edges_of(forward@),
                ids@,
                Set::empty(),
                y,
            )).len() && pending(edges_of(forward@), ids@, Set::empty(), y).finite(),
{
    let ghost e = edges_of(forward@);
    let mut degrees: HashMap<u32, usize> = HashMap::new();
    let mut i: usize = 0;
    assert(degrees@.dom() =~= list@.take(0).to_set());
    while i < list.len()
        invariant
            i <= list.len(),
            e == edges_of(forward@),
            list@.to_set() == ids@,
            degrees@.dom() == list@.take(i as int).to_set(),
            forall|y: u32|
                degrees@.contains_key(y) ==> degrees@[y] == (#[trigger] pending(
                    e,
                    ids@,
                    Set::empty(),
                    y,
                )).len() && pending(e, ids@, Set::empty(), y).finite(),
        decreases list.len() - i,
    {
        let id = list[i];
        let count = match forward.get(&id) {
            Some(set) => {
                let deps = members(set);
                let c = count_within(&deps, ids);
                assert(pending(e, ids@, Set::empty(), id) =~= deps@.to_set().intersect(ids@));
                c
            },
            None => {
                assert(pending(e, ids@, Set::empty(), id) =~= Set::<u32>::empty());
                0
            },
        };
        proof {
            let prev = list@.take(i as int);
            let next = list@.take(i as int + 1);
            assert(next =~= prev.push(id));
            lemma_push_to_set(prev, id);
        }
        degrees.insert(id, count);
        assert(degrees@.dom() =~= list@.take(i as int + 1).to_set());
        i = i + 1;
    }
    assert(list@.take(list@.len() as int) =~= list@);
    degrees
}

/// A pending dependency that gets done leaves one pending dependency less.
pub proof fn lemma_pending_drops(e: Edges, ids: Set<u32>, done: Set<u32>, y: u32, x: u32)
    requires
        pending(e, ids, done, y).finite(),
        pending(e, ids, done, y).contains(x),
    ensures
        pending(e, ids, done.insert(x), y) == pending(e, ids, done, y).remove(x),
        pending(e, ids, done.insert(x), y).finite(),
        pending(e, ids, done.insert(x), y).len() + 1 == pending(e, ids, done, y).len(),
{
    let p = pending(e, ids, done, y);
    assert(pending(e, ids, done.insert(x), y) =~= p.remove(x));
    vstd::set::axiom_set_remove_len(p, x);
    vstd::set::axiom_set_remove_finite(p, x);
}

/// Taking one of distinct numbers out of a list removes it from their set
/// and leaves the others distinct.
pub proof fn lemma_remove_to_set(s: Seq<u32>, i: int)
    requires
        0 <= i < s.len(),
        s.no_duplicates(),
    ensures
        s.remove(i).to_set() == s.to_set().remove(s[i]),
        s.remove(i).no_duplicates(),
{
    let t = s.remove(i);
    assert forall|a: int, b: int| 0 <= a < t.len() && 0 <= b < t.len() && a != b implies t[a]
        != t[b] by {
        let x = if a < i {
            a
        } else {
            a + 1
        };
        let y = if b < i {
            b
        } else {
            b + 1
        };
        assert(t[a] == s[x] && t[b] == s[y]);
    }
    assert forall|v: u32| t.to_set().contains(v) <==> s.to_set().remove(s[i]).contains(v) by {
        if t.contains(v) {
            let k = choose|k: int| 0 <= k < t.len() && t[k] == v;
            let x = if k < i {
                k
            } else {
                k + 1
            };
            assert(s[x] == v);
            assert(s.contains(v));
        }
        if s.contains(v) && v != s[i] {
            let k = choose|k: int| 0 <= k < s.len() && s[k] == v;
            let x = if k < i {
                k
            } else {
                k - 1
            };
            assert(t[x] == v);
        }
    }
    assert(t.to_set() =~= s.to_set().remove(s[i]));
}

/// Whether all dependencies of `y` among `ids` are done.
pub open spec fn is_ready(e: Edges, ids: Set<u32>, done: Set<u32>, y: u32) -> bool {
    forall|d: u32| #[trigger] has_edge(e, y, d) && ids.contains(d) ==> done.contains(d)
}

/// Whether `y` can be taken at place `i` of `order`: it is a note of `ids`
/// that has not been taken before, and all its dependencies among `ids`
/// have been.
pub open spec fn can_be_taken(e: Edges, ids: Set<u32>, order: Seq<u32>, i: int, y: u32) -> bool {
    ids.contains(y) && !order.take(i).contains(y) && is_ready(e, ids, order.take(i).to_set(), y)
}

/// Whether ties are broken by id: at every place the note taken is the
/// smallest of those that can be taken there.
pub open spec fn takes_smallest_ready(e: Edges, ids: Set<u32>, order: Seq<u32>) -> bool {
    forall|i: int, y: u32|
        0 <= i < order.len() && #[trigger] can_be_taken(e, ids, order, i, y) ==> order[i] <= y
}

/// A note that an evaluation order lists can be taken at its place.
proof fn lemma_listed_can_be_taken(e: Edges, ids: Set<u32>, order: Seq<u32>, i: int)
    requires
        is_evaluation_order(e, ids, order),
        0 <= i < order.len(),
    ensures
        can_be_taken(e, ids, order, i, order[i]),
{
    let before = order.take(i);
    if before.contains(order[i]) {
        let k = choose|k: int| 0 <= k < before.len() && before[k] == order[i];
        assert(order[k] == order[i]);
    }
    assert forall|d: u32| #[trigger] has_edge(e, order[i], d) && ids.contains(
        d,
    ) implies before.to_set().contains(d) by {
        let j = choose|j: int| 0 <= j < i && order[j] == d;
        assert(before[j] == d);
    }
}

/// Two evaluation orders that break ties by id begin alike.
proof fn lemma_orders_begin_alike(e: Edges, ids: Set<u32>, a: Seq<u32>, b: Seq<u32>, i: nat)
    requires
        is_evaluation_order(e, ids, a),
        takes_smallest_ready(e, ids, a),
        is_evaluation_order(e, ids, b),
        takes_smallest_ready(e, ids, b),
        i <= a.len(),
    ensures
        i <= b.len(),
        a.take(i as int) == b.take(i as int),
    decreases i,
{
    if i == 0 {
        assert(a.take(0) =~= b.take(0));
    } else {
        let k = (i - 1) as int;
        lemma_orders_begin_alike(e, ids, a, b, (i - 1) as nat);
        let head = a.take(k);
        assert(head == b.take(k));
        let x = a[k];
        lemma_listed_can_be_taken(e, ids, a, k);
        if b.len() == k {
            assert(b =~= head);
            let d = choose|d: u32| #[trigger] has_edge(e, x, d) && ids.contains(d) && !b.contains(d);
            assert(head.to_set().contains(d));
        }
        assert(can_be_taken(e, ids, b, k, x));
        let y = b[k];
        lemma_listed_can_be_taken(e, ids, b, k);
        assert(can_be_taken(e, ids, a, k, y));
        assert(x == y);
        assert(a.take(i as int) =~= head.push(x));
        assert(b.take(i as int) =~= head.push(y));
    }
}

/// There is one evaluation order that breaks ties by id: the same graph
/// and the same notes always give the same list.
pub proof fn lemma_order_unique(e: Edges, ids: Set<u32>, a: Seq<u32>, b: Seq<u32>)
    requires
        is_evaluation_order(e, ids, a),
        takes_smallest_ready(e, ids, a),
        is_evaluation_order(e, ids, b),
        takes_smallest_ready(e, ids, b),
    ensures
        a == b,
{
    lemma_orders_begin_alike(e, ids, a, b, a.len());
    lemma_orders_begin_alike(e, ids, b, a, b.len());
    assert(a.take(a.len() as int) =~= a);
    assert(b.take(b.len() as int) =~= b);
}

/// A note is ready exactly where none of its dependencies is pending.
pub proof fn lemma_ready_none_pending(e: Edges, ids: Set<u32>, done: Set<u32>, y: u32)
    requires
        pending(e, ids, done, y).finite(),
    ensures
        is_ready(e, ids, done, y) <==> pending(e, ids, done, y).len() == 0,
{
    let p = pending(e, ids, done, y);
    if p.len() == 0 {
        p.lemma_len0_is_empty();
        assert forall|d: u32| #[trigger] has_edge(e, y, d) && ids.contains(d) implies done.contains(
            d,
        ) by {
            assert(!p.contains(d));
        }
    }
    if is_ready(e, ids, done, y) {
        assert(p =~= Set::<u32>::empty());
    }
}

/// The notes of a list whose count is zero.
fn zero_degree(list: &Vec<u32>, degrees: &HashMap<u32, usize>) -> (r: Vec<u32>)
    requires
        list@.no_duplicates(),
        list@.to_set() == degrees@.dom(),
    ensures
        r@.no_duplicates(),
        r@.to_set() == Set::new(|y: u32| degrees@.contains_key(y) && degrees@[y] == 0),
{
    let mut ready: Vec<u32> = Vec::new();
    let mut i: usize = 0;
    assert(ready@.to_set() =~= Set::new(
        |y: u32| list@.take(0).to_set().contains(y) && degrees@[y] == 0,
    ));
    while i < list.len()
        invariant
            i <= list.len(),
            list@.no_duplicates(),
            list@.to_set() == degrees@.dom(),
            ready@.no_duplicates(),
            ready@.to_set() == Set::new(
                |y: u32| list@.take(i as int).to_set().contains(y) && degrees@[y] == 0,
            ),
        decreases list.len() - i,
    {
        let id = list[i];
        let ghost prev = list@.take(i as int);
        let ghost next = list@.take(i as int + 1);
        let ghost before = ready@;
        proof {
            assert(next =~= prev.push(id));
            lemma_push_to_set(prev, id);
            assert(!prev.to_set().contains(id)) by {
                if prev.contains(id) {
                    let k = choose|k: int| 0 <= k < prev.len() && prev[k] == id;
                    assert(list@[k] == list@[i as int]);
                }
            }
            assert(list@.to_set().contains(id));
        }
        let zero = match degrees.get(&id) {
            Some(deg) => *deg == 0,
            None => false,
        };
        if zero {
            proof {
                lemma_push_to_set(before, id);
                assert(!before.contains(id)) by {
                    assert(before.contains(id) <==> before.to_set().contains(id));
                }
            }
            ready.push(id);
        }
        assert(ready@.to_set() =~= Set::new(
            |y: u32| next.to_set().contains(y) && degrees@[y] == 0,
        ));
        i = i + 1;
    }
    assert(list@.take(list@.len() as int) =~= list@);
    assert(ready@.to_set() =~= Set::new(|y: u32| degrees@.contains_key(y) && degrees@[y] == 0));
    ready
}

/// Lowers by one the count of every listed note that has a count, and
/// returns those whose count has reached zero.
fn lower_counts(degrees: &mut HashMap<u32, usize>, notes: &Vec<u32>) -> (r: Vec<u32>)
    requires
        notes@.no_duplicates(),
        forall|y: u32|
            notes@.to_set().contains(y) && old(degrees)@.contains_key(y)
                ==> #[trigger] old(degrees)@[y] >= 1,
    ensures
        final(degrees)@.dom() == old(degrees)@.dom(),
        forall|y: u32|
            old(degrees)@.contains_key(y) ==> #[trigger] final(degrees)@[y] == (if notes@.to_set().contains(
                y,
            ) {
                old(degrees)@[y] - 1
            } else {
                old(degrees)@[y] as int
            }),
        r@.no_duplicates(),
        r@.to_set() == Set::new(
            |y: u32|
                notes@.to_set().contains(y) && final(degrees)@.contains_key(y)
                    && final(degrees)@[y] == 0,
        ),
{
    let mut reached: Vec<u32> = Vec::new();
    let mut m: usize = 0;
    let ghost start = degrees@;
    assert(reached@.to_set() =~= Set::new(
        |y: u32|
            notes@.take(0).to_set().contains(y) && degrees@.contains_key(y) && degrees@[y] == 0,
    ));
    while m < notes.len()
        invariant
            m <= notes.len(),
            notes@.no_duplicates(),
            start == old(degrees)@,
            degrees@.dom() == start.dom(),
            forall|y: u32|
                notes@.to_set().contains(y) && start.contains_key(y) ==> #[trigger] start[y] >= 1,
            forall|y: u32|
                start.contains_key(y) ==> #[trigger] degrees@[y] == (if notes@.take(
                    m as int,
                ).to_set().contains(y) {
                    start[y] - 1
                } else {
                    start[y] as int
                }),
            reached@.no_duplicates(),
            reached@.to_set() == Set::new(
                |y: u32|
                    notes@.take(m as int).to_set().contains(y) && degrees@.contains_key(y)
                        && degrees@[y] == 0,
            ),
        decreases notes.len() - m,
    {
        let note = notes[m];
        let ghost prev = notes@.take(m as int);
        let ghost next = notes@.take(m as int + 1);
        let ghost before = reached@;
        let ghost counts = degrees@;
        proof {
            assert(next =~= prev.push(note));
            lemma_push_to_set(prev, note);
            assert(!prev.to_set().contains(note)) by {
                if prev.contains(note) {
                    let k = choose|k: int| 0 <= k < prev.len() && prev[k] == note;
                    assert(notes@[k] == notes@[m as int]);
                }
            }
            assert(notes@.to_set().contains(note)) by {
                assert(notes@[m as int] == note);
            }
        }
        let current = match degrees.get(&note) {
            Some(deg) => Some(*deg),
            None => None,
        };
        match current {
            Some(deg) => {
                assert(start[note] >= 1);
                assert(counts[note] == start[note]);
                let lowered = deg - 1;
                degrees.insert(note, lowered);
                assert(degrees@.dom() =~= start.dom());
                if lowered == 0 {
                    proof {
                        lemma_push_to_set(before, note);
                        assert(!before.contains(note)) by {
                            assert(before.contains(note) <==> before.to_set().contains(note));
                        }
                    }
                    reached.push(note);
                }
            },
            None => {},
        }
        assert(reached@.to_set() =~= Set::new(
            |y: u32| next.to_set().contains(y) && degrees@.contains_key(y) && degrees@[y] == 0,
        )) by {
            assert forall|y: u32| y != note && counts.contains_key(y) implies degrees@[y]
                == counts[y] by {}
        }
        m = m + 1;
    }
    assert(notes@.take(notes@.len() as int) =~= notes@);
    reached
}

/// Appends a list to a queue.
fn append_all(queue: &mut Vec<u32>, more: &Vec<u32>)
    ensures
        final(queue)@ == old(queue)@ + more@,
{
    let mut k: usize = 0;
    assert(queue@ =~= old(queue)@ + more@.take(0));
    while k < more.len()
        invariant
            k <= more.len(),
            queue@ == old(queue)@ + more@.take(k as int),
        decreases more.len() - k,
    {
        queue.push(more[k]);
        assert(more@.take(k as int + 1) =~= more@.take(k as int).push(more@[k as int]));
        assert(queue@ =~= old(queue)@ + more@.take(k as int + 1));
        k = k + 1;
    }
    assert(more@.take(more@.len() as int) =~= more@);
}

/// The place of the smallest number of a list that is not empty.
fn smallest_index(list: &Vec<u32>) -> (r: usize)
    requires
        list@.len() > 0,
    ensures
        r < list@.len(),
        forall|k: int| 0 <= k < list@.len() ==> list@[r as int] <= list@[k],
{
    let mut best: usize = 0;
    let mut k: usize = 1;
    while k < list.len()
        invariant
            1 <= k <= list.len(),
            best < k,
            forall|j: int| 0 <= j < k ==> list@[best as int] <= list@[j],
        decreases list.len() - k,
    {
        if list[k] < list[best] {
            best = k;
        }
        k = k + 1;
    }
    best
}

/// The notes of `ids` in an order in which they can be evaluated, by
/// repeatedly taking the smallest note all of whose dependencies among
/// `ids` have been taken.
pub fn evaluation_order(
    forward: &HashMap<u32, HashSet<u32>>,
    inverse: &HashMap<u32, HashSet<u32>>,
    note_ids: &HashSet<u32>,
) -> (r: Vec<u32>)
    requires
        forall|a: u32, b: u32|
            #![trigger has_edge(edges_of(forward@), a, b)]
            #![trigger has_edge(edges_of(inverse@), b, a)]
            has_edge(edges_of(forward@), a, b) <==> has_edge(edges_of(inverse@), b, a),
    ensures
        is_evaluation_order(edges_of(forward@), note_ids@, r@),
        takes_smallest_ready(edges_of(forward@), note_ids@, r@),
{
    let ghost e = edges_of(forward@);
    let ghost inv = edges_of(inverse@);
    let ghost ids = note_ids@;
    let ids_list = members(note_ids);
    let mut in_degree = initial_degrees(forward, note_ids, &ids_list);
    let mut queue = zero_degree(&ids_list, &in_degree);
    let mut result: Vec<u32> = Vec::new();
    let ghost mut done: Set<u32> = Set::empty();
    proof {
        assert(result@.to_set() =~= done);
        assert(queue@.to_set() =~= Set::new(
            |y: u32| ids.contains(y) && !done.contains(y) && in_degree@[y] == 0,
        ));
    }
    while queue.len() > 0
        invariant
            e == edges_of(forward@),
            inv == edges_of(inverse@),
            ids == note_ids@,
            forall|a: u32, b: u32|
                #![trigger has_edge(e, a, b)]
                #![trigger has_edge(inv, b, a)]
                has_edge(e, a, b) <==> has_edge(inv, b, a),
            in_degree@.dom() == ids,
            done == result@.to_set(),
            done.subset_of(ids),
            result@.no_duplicates(),
            queue@.no_duplicates(),
            forall|y: u32|
                ids.contains(y) && !done.contains(y) ==> #[trigger] in_degree@[y] == pending(
                    e,
                    ids,
                    done,
                    y,
                ).len() && pending(e, ids, done, y).finite(),
            queue@.to_set() == Set::new(
                |y: u32| ids.contains(y) && !done.contains(y) && in_degree@[y] == 0,
            ),
            forall|k: int, d: u32|
                0 <= k < result@.len() && #[trigger] has_edge(e, result@[k], d) && ids.contains(d)
                    ==> exists|j: int| 0 <= j < k && result@[j] == d,
            takes_smallest_ready(e, ids, result@),
        decreases 0x1_0000_0000 - result@.len(),
    {
        let ghost done0 = done;
        let ghost result0 = result@;
        let ghost queue0 = queue@;
        let ghost degrees0 = in_degree@;
        let at = smallest_index(&queue);
        let x = queue.remove(at);
        proof {
            assert(queue@ =~= queue0.remove(at as int));
            lemma_remove_to_set(queue0, at as int);
            assert(queue0.to_set().contains(x)) by {
                assert(queue0[at as int] == x);
            }
            assert(ids.contains(x) && !done0.contains(x) && degrees0[x] == 0);
            pending(e, ids, done0, x).lemma_len0_is_empty();
            assert forall|d: u32| has_edge(e, x, d) && ids.contains(d) implies done0.contains(
                d,
            ) by {
                assert(!pending(e, ids, done0, x).contains(d));
            }
            lemma_push_to_set(result0, x);
            lemma_distinct_u32_bound(result0.push(x));
            assert(!result0.contains(x)) by {
                assert(result0.contains(x) <==> result0.to_set().contains(x));
            }
            let next = result0.push(x);
            assert forall|i: int, y: u32|
                0 <= i < next.len() && #[trigger] can_be_taken(e, ids, next, i, y) implies next[i]
                <= y by {
                if i < result0.len() {
                    assert(next.take(i) =~= result0.take(i));
                    assert(can_be_taken(e, ids, result0, i, y));
                } else {
                    assert(next.take(i) =~= result0);
                    assert(!done0.contains(y)) by {
                        assert(result0.contains(y) <==> result0.to_set().contains(y));
                    }
                    assert(degrees0[y] == pending(e, ids, done0, y).len());
                    lemma_ready_none_pending(e, ids, done0, y);
                    assert(queue0.to_set().contains(y));
                    let k = choose|k: int| 0 <= k < queue0.len() && queue0[k] == y;
                    assert(queue0[at as int] <= queue0[k]);
                }
            }
        }
        result.push(x);
        proof {
            done = done0.insert(x);
        }
        let dependents: Vec<u32> = match inverse.get(&x) {
            Some(set) => members(set),
            None => Vec::new(),
        };
        proof {
            assert forall|y: u32| dependents@.to_set().contains(y) <==> has_edge(e, y, x) by {
                assert(has_edge(inv, x, y) <==> has_edge(e, y, x));
            }
            assert forall|y: u32| dependents@.to_set().contains(y) && ids.contains(
                y,
            ) implies !done.contains(y) && pending(e, ids, done0, y).contains(x) by {
                if done0.contains(y) {
                    assert(result0.contains(y)) by {
                        assert(result0.contains(y) <==> result0.to_set().contains(y));
                    }
                    let k = choose|k: int| 0 <= k < result0.len() && result0[k] == y;
                    assert(has_edge(e, result0[k], x));
                    let j = choose|j: int| 0 <= j < k && result0[j] == x;
                    assert(result0[j] == x);
                    assert(result0.contains(x));
                }
                if y == x {
                    assert(has_edge(e, x, x));
                }
            }
            assert forall|y: u32| dependents@.to_set().contains(y) && degrees0.contains_key(
                y,
            ) implies #[trigger] degrees0[y] >= 1 by {
                assert(ids.contains(y) && !done0.contains(y));
                assert(degrees0[y] == pending(e, ids, done0, y).len());
                lemma_pending_drops(e, ids, done0, y, x);
            }
        }
        let new_zero = lower_counts(&mut in_degree, &dependents);
        let ghost queue1 = queue@;
        append_all(&mut queue, &new_zero);
        proof {
            seq_to_set_distributes_over_add(queue1, new_zero@);
            assert forall|y: u32| ids.contains(y) && !done.contains(y) implies #[trigger] in_degree@[y]
                == pending(e, ids, done, y).len() && pending(e, ids, done, y).finite() by {
                assert(ids.contains(y) && !done0.contains(y));
                assert(degrees0[y] == pending(e, ids, done0, y).len());
                if has_edge(e, y, x) {
                    assert(dependents@.to_set().contains(y));
                    lemma_pending_drops(e, ids, done0, y, x);
                } else {
                    assert(!dependents@.to_set().contains(y));
                    assert(pending(e, ids, done, y) =~= pending(e, ids, done0, y));
                }
            }
            assert(queue@.to_set() =~= Set::new(
                |y: u32| ids.contains(y) && !done.contains(y) && in_degree@[y] == 0,
            )) by {
                assert forall|y: u32| queue@.to_set().contains(y) <==> (ids.contains(y)
                    && !done.contains(y) && in_degree@[y] == 0) by {
                    assert(queue@.to_set().contains(y) <==> (queue1.to_set().contains(y)
                        || new_zero@.to_set().contains(y)));
                    if dependents@.to_set().contains(y) && ids.contains(y) {
                        assert(degrees0[y] >= 1);
                        assert(!queue0.to_set().contains(y));
                    }
                }
            }
            assert(queue@.no_duplicates()) by {
                assert forall|a: int, b: int| 0 <= a < queue1.len() && 0 <= b < new_zero@.len() implies queue1[a]
                    != new_zero@[b] by {
                    let y = new_zero@[b];
                    assert(new_zero@.to_set().contains(y));
                    assert(degrees0[y] >= 1);
                    assert(!queue0.to_set().contains(y));
                    assert(queue1.to_set().contains(queue1[a]));
                }
                lemma_no_dup_in_concat(queue1, new_zero@);
            }
            assert forall|k: int, d: u32| 0 <= k < result@.len() && #[trigger] has_edge(
                e,
                result@[k],
                d,
            ) && ids.contains(d) implies exists|j: int| 0 <= j < k && result@[j] == d by {
                if k < result0.len() {
                    assert(has_edge(e, result0[k], d));
                    let j = choose|j: int| 0 <= j < k && result0[j] == d;
                    assert(result@[j] == d);
                } else {
                    assert(done0.contains(d));
                    assert(result0.contains(d)) by {
                        assert(result0.contains(d) <==> result0.to_set().contains(d));
                    }
                    let j = choose|j: int| 0 <= j < result0.len() && result0[j] == d;
                    assert(result@[j] == d);
                }
            }
        }
    }
    proof {
        assert forall|i: int| 0 <= i < result@.len() implies ids.contains(
            #[trigger] result@[i],
        ) by {
            assert(result@.to_set().contains(result@[i]));
        }
        assert forall|y: u32| ids.contains(y) && !result@.contains(y) implies exists|d: u32|
            #[trigger] has_edge(e, y, d) && ids.contains(d) && !result@.contains(d) by {
            assert(result@.contains(y) <==> result@.to_set().contains(y));
            let p = pending(e, ids, done, y);
            assert(!queue@.to_set().contains(y)) by {
                if queue@.contains(y) {
                    let k = choose|k: int| 0 <= k < queue@.len() && queue@[k] == y;
                }
            }
            assert(in_degree@[y] != 0);
            assert(p.len() != 0);
            let d = p.choose();
            assert(p.contains(d));
            assert(result@.contains(d) <==> result@.to_set().contains(d));
            assert(has_edge(e, y, d) && ids.contains(d) && !result@.contains(d));
        }
    }
    result
}

} // verus!
