//! The dependency graph of notes, indexed in both directions.
//!
//! An edge from `a` to `b` says that note `a` depends on note `b`. The
//! graph keeps the edges twice, by source and by target, so that both the
//! dependencies and the dependents of a note are found at once.

use crate::cycles::closing;
use crate::cycles::closing_set;
use crate::cycles::find_cycles;
use crate::cycles::is_chain;
use crate::cycles::lists;
use crate::cycles::without;
use crate::cycles::is_cycle;
use crate::cycles::has_cycle;
use crate::order::evaluation_order;
use crate::order::is_evaluation_order;
use crate::order::lemma_order_lists_all;
use crate::order::takes_smallest_ready;
use crate::reach::has_edge;
use crate::reach::edges_of;
use crate::reach::reaches;
use crate::reach::search;
use crate::reach::targets;
use crate::reach::Edges;
use crate::sets::copy_set;
use crate::sets::keys_of;
use crate::sets::lemma_push_to_set;
use crate::sets::members;
use std::collections::HashMap;
use std::collections::HashSet;
use vstd::prelude::*;
use vstd::set::fold::is_fun_commutative;
use vstd::set::fold::lemma_fold_empty;
use vstd::set::fold::lemma_fold_insert;
use vstd::std_specs::hash::group_hash_axioms;

verus! {

broadcast use group_hash_axioms;

/// The two indices of a graph and the notes that refer to the base note.
struct Indices {
    dependencies: HashMap<u32, HashSet<u32>>,
    dependents: HashMap<u32, HashSet<u32>>,
    base_note_dependents: HashSet<u32>,
}

/// Counts that describe a graph.
#[derive(Clone, Copy, Debug, PartialEq, Eq, Structural)]
pub struct GraphStats {
    /// The number of registered notes.
    pub note_count: usize,
    /// The number of edges, or `usize::MAX` where there are more.
    pub total_dependencies: usize,
    /// The largest number of dependencies of one note.
    pub max_dependencies: usize,
    /// The largest number of dependents of one note.
    pub max_dependents: usize,
    /// The number of notes that refer to the base note.
    pub base_note_dependents: usize,
}

/// Adds the number of edges that leave one note to a running sum.
pub open spec fn add_degree(e: Edges) -> spec_fn(nat, u32) -> nat {
    |sum: nat, a: u32| sum + e[a].len()
}

/// The number of edges: the sizes of the sets of all notes, added up.
pub open spec fn edge_count(e: Edges) -> nat {
    e.dom().fold(0nat, add_degree(e))
}

/// Takes the edge from `from` to `to` out of an index, dropping the entry of
/// `from` where it is left without edges.
fn remove_edge(index: &mut HashMap<u32, HashSet<u32>>, from: u32, to: u32)
    ensures
        forall|a: u32, b: u32|
            #![trigger has_edge(edges_of(final(index)@), a, b)]
            #![trigger has_edge(edges_of(old(index)@), a, b)]
            has_edge(edges_of(final(index)@), a, b) <==> (has_edge(edges_of(old(index)@), a, b)
                && !(a == from && b == to)),
        final(index)@.dom().subset_of(old(index)@.dom()),
        forall|a: u32|
            a != from ==> (final(index)@.contains_key(a) <==> old(index)@.contains_key(a)),
{
    let ghost before = edges_of(index@);
    match index.remove(&from) {
        Some(set) => {
            let mut set = set;
            let ghost held = set@;
            set.remove(&to);
            let ghost left = set@;
            assert(left == held.remove(to));
            let ghost removed = index@;
            assert(removed == old(index)@.remove(from));
            assert(before.contains_key(from) && before[from] == held);
            if !set.is_empty() {
                index.insert(from, set);
                proof {
                    let after = edges_of(index@);
                    assert(after.contains_key(from) && after[from] == left);
                    assert forall|a: u32, b: u32|
                        #![trigger has_edge(after, a, b)]
                        #![trigger has_edge(before, a, b)]
                        has_edge(after, a, b) <==> (has_edge(before, a, b) && !(a == from && b
                            == to)) by {
                        if a != from {
                            assert(after.contains_key(a) <==> before.contains_key(a));
                            if before.contains_key(a) {
                                assert(after[a] == before[a]);
                            }
                        }
                    }
                }
            } else {
                proof {
                    let after = edges_of(index@);
                    assert(left =~= Set::<u32>::empty());
                    assert(!after.contains_key(from));
                    assert forall|a: u32, b: u32|
                        #![trigger has_edge(after, a, b)]
                        #![trigger has_edge(before, a, b)]
                        has_edge(after, a, b) <==> (has_edge(before, a, b) && !(a == from && b
                            == to)) by {
                        if a != from {
                            assert(after.contains_key(a) <==> before.contains_key(a));
                            if before.contains_key(a) {
                                assert(after[a] == before[a]);
                            }
                        } else {
                            if held.contains(b) && b != to {
                                assert(left.contains(b));
                            }
                        }
                    }
                }
            }
        },
        None => {
            assert(edges_of(index@) =~= before);
        },
    }
}

/// Puts the edge from `from` to `to` into an index.
fn add_edge(index: &mut HashMap<u32, HashSet<u32>>, from: u32, to: u32)
    ensures
        forall|a: u32, b: u32|
            #![trigger has_edge(edges_of(final(index)@), a, b)]
            #![trigger has_edge(edges_of(old(index)@), a, b)]
            has_edge(edges_of(final(index)@), a, b) <==> (has_edge(edges_of(old(index)@), a, b)
                || (a == from && b == to)),
{
    let ghost before = edges_of(index@);
    let mut set = match index.remove(&from) {
        Some(s) => s,
        None => HashSet::new(),
    };
    let ghost held = set@;
    set.insert(to);
    let ghost grown = set@;
    index.insert(from, set);
    proof {
        let after = edges_of(index@);
        assert forall|a: u32, b: u32|
            #![trigger has_edge(after, a, b)]
            #![trigger has_edge(before, a, b)]
            has_edge(after, a, b) <==> (has_edge(before, a, b) || (a == from && b == to)) by {
            if a == from {
                assert(after[from] == grown);
                if before.contains_key(from) {
                    assert(before[from] == held);
                }
            } else {
                if before.contains_key(a) {
                    assert(after.contains_key(a) && after[a] == before[a]);
                }
            }
        }
    }
}

/// Takes `target` out of the edges of `from`, keeping the entry of `from`.
fn drop_target(index: &mut HashMap<u32, HashSet<u32>>, from: u32, target: u32)
    ensures
        forall|a: u32, b: u32|
            #![trigger has_edge(edges_of(final(index)@), a, b)]
            #![trigger has_edge(edges_of(old(index)@), a, b)]
            has_edge(edges_of(final(index)@), a, b) <==> (has_edge(edges_of(old(index)@), a, b)
                && !(a == from && b == target)),
        final(index)@.dom() == old(index)@.dom(),
{
    let ghost before = edges_of(index@);
    match index.remove(&from) {
        Some(set) => {
            let mut set = set;
            let ghost held = set@;
            set.remove(&target);
            let ghost left = set@;
            index.insert(from, set);
            assert(index@.dom() =~= old(index)@.dom());
            proof {
                let after = edges_of(index@);
                assert forall|a: u32, b: u32|
                    #![trigger has_edge(after, a, b)]
                    #![trigger has_edge(before, a, b)]
                    has_edge(after, a, b) <==> (has_edge(before, a, b) && !(a == from && b
                        == target)) by {
                    if a == from {
                        assert(before[from] == held);
                        assert(after[from] == left);
                    } else {
                        if before.contains_key(a) {
                            assert(after.contains_key(a) && after[a] == before[a]);
                        }
                    }
                }
            }
        },
        None => {
            assert(edges_of(index@) =~= before);
        },
    }
}

impl Indices {
    /// The edges by source: the dependencies of each registered note.
    spec fn forward(&self) -> Edges {
        edges_of(self.dependencies@)
    }

    /// The edges by target: the dependents of each note that has any.
    spec fn inverse(&self) -> Edges {
        edges_of(self.dependents@)
    }

    /// The notes that refer to the base note.
    spec fn base_dependents(&self) -> Set<u32> {
        self.base_note_dependents@
    }

    /// Whether the two indices hold the same edges.
    spec fn consistent(&self) -> bool {
        forall|a: u32, b: u32|
            #![trigger has_edge(self.forward(), a, b)]
            #![trigger has_edge(self.inverse(), b, a)]
            has_edge(self.forward(), a, b) <==> has_edge(self.inverse(), b, a)
    }

    /// An empty graph.
    fn new() -> (r: Indices)
        ensures
            r.forward() == Map::<u32, Set<u32>>::empty(),
            r.inverse() == Map::<u32, Set<u32>>::empty(),
            r.base_dependents() == Set::<u32>::empty(),
            r.consistent(),
    {
        let r = Indices {
            dependencies: HashMap::new(),
            dependents: HashMap::new(),
            base_note_dependents: HashSet::new(),
        };
        assert(r.forward() =~= Map::<u32, Set<u32>>::empty());
        assert(r.inverse() =~= Map::<u32, Set<u32>>::empty());
        r
    }

    /// The number of registered notes.
    fn note_count(&self) -> (r: usize)
        ensures
            r == self.forward().dom().len(),
    {
        assert(self.forward().dom() =~= self.dependencies@.dom());
        self.dependencies.len()
    }

    /// Whether a note is registered.
    fn has_note(&self, note_id: u32) -> (r: bool)
        ensures
            r == self.forward().contains_key(note_id),
    {
        self.dependencies.contains_key(&note_id)
    }

    /// Removes every note and every edge.
    fn clear(&mut self)
        ensures
            final(self).forward() == Map::<u32, Set<u32>>::empty(),
            final(self).inverse() == Map::<u32, Set<u32>>::empty(),
            final(self).base_dependents() == Set::<u32>::empty(),
            final(self).consistent(),
    {
        self.dependencies.clear();
        self.dependents.clear();
        self.base_note_dependents.clear();
        assert(self.forward() =~= Map::<u32, Set<u32>>::empty());
        assert(self.inverse() =~= Map::<u32, Set<u32>>::empty());
    }

    /// Registers a note with its dependencies, in place of those it had, and
    /// records whether it refers to the base note.
    fn update_dependencies(
        &mut self,
        note_id: u32,
        new_deps: HashSet<u32>,
        references_base: bool,
    )
        requires
            old(self).consistent(),
        ensures
            final(self).consistent(),
            final(self).forward() == old(self).forward().insert(note_id, new_deps@),
            final(self).base_dependents() == (if references_base {
                old(self).base_dependents().insert(note_id)
            } else {
                old(self).base_dependents().remove(note_id)
            }),
    {
        let ghost fwd = self.forward();
        let ghost inv = self.inverse();
        let old_list: Vec<u32> = match self.dependencies.get(&note_id) {
            Some(s) => members(s),
            None => Vec::new(),
        };
        assert(old_list@.to_set() =~= targets(fwd, note_id));
        let mut i: usize = 0;
        while i < old_list.len()
            invariant
                i <= old_list.len(),
                self.dependencies == old(self).dependencies,
                self.base_note_dependents == old(self).base_note_dependents,
                forall|b: u32, a: u32|
                    #![trigger has_edge(self.inverse(), b, a)]
                    #![trigger has_edge(inv, b, a)]
                    has_edge(self.inverse(), b, a) <==> (has_edge(inv, b, a) && !(a == note_id
                        && old_list@.take(i as int).contains(b) && !new_deps@.contains(b))),
            decreases old_list.len() - i,
        {
            let d = old_list[i];
            let ghost prev = old_list@.take(i as int);
            let ghost next = old_list@.take(i as int + 1);
            let ghost before = self.inverse();
            proof {
                assert(next =~= prev.push(d));
                lemma_push_to_set(prev, d);
                assert forall|b: u32| next.contains(b) <==> (prev.contains(b) || b == d) by {
                    assert(next.to_set().contains(b) <==> prev.to_set().insert(d).contains(b));
                }
            }
            if !new_deps.contains(&d) {
                remove_edge(&mut self.dependents, d, note_id);
            }
            proof {
                let after = self.inverse();
                assert forall|b: u32, a: u32|
                    #![trigger has_edge(after, b, a)]
                    #![trigger has_edge(inv, b, a)]
                    has_edge(after, b, a) <==> (has_edge(inv, b, a) && !(a == note_id
                        && next.contains(b) && !new_deps@.contains(b))) by {
                    if new_deps@.contains(d) {
                        assert(after == before);
                    } else {
                        assert(has_edge(after, b, a) <==> (has_edge(before, b, a) && !(b == d
                            && a == note_id)));
                    }
                    assert(has_edge(before, b, a) <==> (has_edge(inv, b, a) && !(a == note_id
                        && prev.contains(b) && !new_deps@.contains(b))));
                    assert(next.contains(b) <==> (prev.contains(b) || b == d));
                }
            }
            i = i + 1;
        }
        assert(old_list@.take(old_list@.len() as int) =~= old_list@);
        let ghost inv1 = self.inverse();
        assert forall|b: u32, a: u32| has_edge(inv1, b, a) <==> (has_edge(inv, b, a) && !(a
            == note_id && !new_deps@.contains(b))) by {
            assert(old_list@.contains(b) <==> old_list@.to_set().contains(b));
            assert(has_edge(inv, b, note_id) <==> has_edge(fwd, note_id, b));
        }
        let new_list = members(&new_deps);
        let mut j: usize = 0;
        while j < new_list.len()
            invariant
                j <= new_list.len(),
                self.dependencies == old(self).dependencies,
                self.base_note_dependents == old(self).base_note_dependents,
                forall|b: u32, a: u32|
                    #![trigger has_edge(self.inverse(), b, a)]
                    #![trigger has_edge(inv1, b, a)]
                    has_edge(self.inverse(), b, a) <==> (has_edge(inv1, b, a) || (a == note_id
                        && new_list@.take(j as int).contains(b))),
            decreases new_list.len() - j,
        {
            let d = new_list[j];
            let ghost prev = new_list@.take(j as int);
            let ghost next = new_list@.take(j as int + 1);
            let ghost before = self.inverse();
            proof {
                assert(next =~= prev.push(d));
                lemma_push_to_set(prev, d);
                assert forall|b: u32| next.contains(b) <==> (prev.contains(b) || b == d) by {
                    assert(next.to_set().contains(b) <==> prev.to_set().insert(d).contains(b));
                }
            }
            add_edge(&mut self.dependents, d, note_id);
            proof {
                let after = self.inverse();
                assert forall|b: u32, a: u32|
                    #![trigger has_edge(after, b, a)]
                    #![trigger has_edge(inv1, b, a)]
                    has_edge(after, b, a) <==> (has_edge(inv1, b, a) || (a == note_id
                        && next.contains(b))) by {
                    assert(has_edge(after, b, a) <==> (has_edge(before, b, a) || (b == d && a
                        == note_id)));
                    assert(has_edge(before, b, a) <==> (has_edge(inv1, b, a) || (a == note_id
                        && prev.contains(b))));
                    assert(next.contains(b) <==> (prev.contains(b) || b == d));
                }
            }
            j = j + 1;
        }
        assert(new_list@.take(new_list@.len() as int) =~= new_list@);
        proof {
            assert forall|b: u32| new_list@.contains(b) <==> new_deps@.contains(b) by {
                assert(new_list@.contains(b) <==> new_list@.to_set().contains(b));
            }
        }
        self.dependencies.insert(note_id, new_deps);
        if references_base {
            self.base_note_dependents.insert(note_id);
        } else {
            self.base_note_dependents.remove(&note_id);
        }
        assert(self.forward() =~= fwd.insert(note_id, new_deps@));
        proof {
            let fwd2 = self.forward();
            let inv2 = self.inverse();
            assert forall|a: u32, b: u32|
                #![trigger has_edge(fwd2, a, b)]
                #![trigger has_edge(inv2, b, a)]
                has_edge(fwd2, a, b) <==> has_edge(inv2, b, a) by {
                assert(has_edge(inv2, b, a) <==> (has_edge(inv1, b, a) || (a == note_id
                    && new_list@.contains(b))));
                assert(has_edge(inv1, b, a) <==> (has_edge(inv, b, a) && !(a == note_id
                    && !new_deps@.contains(b))));
                assert(has_edge(fwd, a, b) <==> has_edge(inv, b, a));
                if a == note_id {
                    assert(has_edge(fwd2, a, b) <==> new_deps@.contains(b));
                } else {
                    assert(has_edge(fwd2, a, b) <==> has_edge(fwd, a, b));
                }
            }
        }
    }

    /// Removes a note with every edge from it and to it.
    fn remove_note(&mut self, note_id: u32)
        requires
            old(self).consistent(),
        ensures
            final(self).consistent(),
            final(self).forward().dom() == old(self).forward().dom().remove(note_id),
            forall|a: u32, b: u32|
                #![trigger has_edge(final(self).forward(), a, b)]
                #![trigger has_edge(old(self).forward(), a, b)]
                has_edge(final(self).forward(), a, b) <==> (has_edge(old(self).forward(), a, b)
                    && a != note_id && b != note_id),
            final(self).base_dependents() == old(self).base_dependents().remove(note_id),
    {
        let ghost fwd = self.forward();
        let ghost inv = self.inverse();
        match self.dependencies.remove(&note_id) {
            Some(deps) => {
                let list = members(&deps);
                let mut i: usize = 0;
                while i < list.len()
                    invariant
                        i <= list.len(),
                        self.dependencies@ == old(self).dependencies@.remove(note_id),
                        self.base_note_dependents == old(self).base_note_dependents,
                        forall|b: u32, a: u32|
                            #![trigger has_edge(self.inverse(), b, a)]
                            #![trigger has_edge(inv, b, a)]
                            has_edge(self.inverse(), b, a) <==> (has_edge(inv, b, a) && !(a
                                == note_id && list@.take(i as int).contains(b))),
                    decreases list.len() - i,
                {
                    let d = list[i];
                    proof {
                        let prev = list@.take(i as int);
                        let next = list@.take(i as int + 1);
                        assert(next =~= prev.push(d));
                        crate::sets::lemma_push_to_set(prev, d);
                        assert forall|b: u32| next.contains(b) <==> (prev.contains(b) || b
                            == d) by {
                            assert(next.to_set().contains(b) <==> prev.to_set().insert(
                                d,
                            ).contains(b));
                        }
                    }
                    remove_edge(&mut self.dependents, d, note_id);
                    i = i + 1;
                }
                assert(list@.take(list@.len() as int) =~= list@);
                proof {
                    assert forall|b: u32| list@.contains(b) <==> has_edge(fwd, note_id, b) by {
                        assert(list@.contains(b) <==> list@.to_set().contains(b));
                    }
                }
            },
            None => {},
        }
        let ghost inv1 = self.inverse();
        let ghost fwd1 = self.forward();
        assert forall|b: u32, a: u32| has_edge(inv1, b, a) <==> (has_edge(inv, b, a) && a
            != note_id) by {
            assert(has_edge(inv, b, note_id) <==> has_edge(fwd, note_id, b));
        }
        assert forall|a: u32, b: u32| has_edge(fwd1, a, b) <==> (has_edge(fwd, a, b) && a
            != note_id) by {}
        match self.dependents.remove(&note_id) {
            Some(sources) => {
                let list = members(&sources);
                let ghost inv2 = self.inverse();
                let mut i: usize = 0;
                while i < list.len()
                    invariant
                        i <= list.len(),
                        self.inverse() == inv2,
                        self.base_note_dependents == old(self).base_note_dependents,
                        self.forward().dom() == fwd1.dom(),
                        forall|a: u32, b: u32|
                            #![trigger has_edge(self.forward(), a, b)]
                            #![trigger has_edge(fwd1, a, b)]
                            has_edge(self.forward(), a, b) <==> (has_edge(fwd1, a, b) && !(b
                                == note_id && list@.take(i as int).contains(a))),
                    decreases list.len() - i,
                {
                    let d = list[i];
                    proof {
                        let prev = list@.take(i as int);
                        let next = list@.take(i as int + 1);
                        assert(next =~= prev.push(d));
                        crate::sets::lemma_push_to_set(prev, d);
                        assert forall|b: u32| next.contains(b) <==> (prev.contains(b) || b
                            == d) by {
                            assert(next.to_set().contains(b) <==> prev.to_set().insert(
                                d,
                            ).contains(b));
                        }
                    }
                    drop_target(&mut self.dependencies, d, note_id);
                    assert(self.forward().dom() =~= fwd1.dom());
                    i = i + 1;
                }
                assert(list@.take(list@.len() as int) =~= list@);
                proof {
                    assert forall|a: u32| list@.contains(a) <==> has_edge(inv1, note_id, a) by {
                        assert(list@.contains(a) <==> list@.to_set().contains(a));
                    }
                    let fwd3 = self.forward();
                    assert forall|a: u32, b: u32|
                        #![trigger has_edge(fwd3, a, b)]
                        has_edge(fwd3, a, b) <==> (has_edge(fwd1, a, b) && !(b == note_id
                            && has_edge(inv1, note_id, a))) by {
                        assert(has_edge(fwd3, a, b) <==> (has_edge(fwd1, a, b) && !(b == note_id
                            && list@.contains(a))));
                    }
                    assert forall|b: u32, a: u32|
                        #![trigger has_edge(inv2, b, a)]
                        has_edge(inv2, b, a) <==> (has_edge(inv1, b, a) && b != note_id) by {
                        if b != note_id {
                            assert(inv2.contains_key(b) <==> inv1.contains_key(b));
                            if inv1.contains_key(b) {
                                assert(inv2[b] == inv1[b]);
                            }
                        }
                    }
                }
            },
            None => {
                assert(self.inverse() =~= inv1);
            },
        }
        self.base_note_dependents.remove(&note_id);
        assert(self.forward().dom() =~= fwd.dom().remove(note_id));
        proof {
            let fwd3 = self.forward();
            let inv3 = self.inverse();
            assert forall|a: u32, b: u32|
                #![trigger has_edge(fwd3, a, b)]
                has_edge(fwd3, a, b) <==> (has_edge(fwd, a, b) && a != note_id && b
                    != note_id) by {
                assert(has_edge(fwd3, a, b) <==> (has_edge(fwd1, a, b) && !(b == note_id
                    && has_edge(inv1, note_id, a))));
                assert(has_edge(fwd1, a, b) <==> (has_edge(fwd, a, b) && a != note_id));
                assert(has_edge(inv1, note_id, a) <==> (has_edge(inv, note_id, a) && a
                    != note_id));
                assert(has_edge(fwd, a, note_id) <==> has_edge(inv, note_id, a));
            }
            assert forall|a: u32, b: u32|
                #![trigger has_edge(fwd3, a, b)]
                #![trigger has_edge(inv3, b, a)]
                has_edge(fwd3, a, b) <==> has_edge(inv3, b, a) by {
                assert(has_edge(inv3, b, a) <==> (has_edge(inv1, b, a) && b != note_id));
                assert(has_edge(inv1, b, a) <==> (has_edge(inv, b, a) && a != note_id));
                assert(has_edge(fwd, a, b) <==> has_edge(inv, b, a));
            }
        }
    }

    /// The notes that a note depends on directly.
    fn get_dependencies(&self, note_id: u32) -> (r: HashSet<u32>)
        ensures
            r@ == targets(self.forward(), note_id),
    {
        match self.dependencies.get(&note_id) {
            Some(s) => copy_set(s),
            None => HashSet::new(),
        }
    }

    /// The notes that depend on a note directly.
    fn get_dependents(&self, note_id: u32) -> (r: HashSet<u32>)
        ensures
            r@ == targets(self.inverse(), note_id),
    {
        match self.dependents.get(&note_id) {
            Some(s) => copy_set(s),
            None => HashSet::new(),
        }
    }

    /// The notes that refer to the base note.
    fn get_base_note_dependents(&self) -> (r: HashSet<u32>)
        ensures
            r@ == self.base_dependents(),
    {
        copy_set(&self.base_note_dependents)
    }

    /// The notes that depend on a note, directly or through other notes,
    /// without the note itself.
    fn get_all_dependents(&self, note_id: u32) -> (r: HashSet<u32>)
        ensures
            forall|x: u32| r@.contains(x) <==> (x != note_id && reaches(self.inverse(), note_id, x)),
    {
        let (visited, _) = search(&self.dependents, note_id, None);
        let mut visited = visited;
        visited.remove(&note_id);
        visited
    }

    /// The notes that a note depends on, directly or through other notes,
    /// without the note itself.
    fn get_all_dependencies(&self, note_id: u32) -> (r: HashSet<u32>)
        ensures
            forall|x: u32| r@.contains(x) <==> (x != note_id && reaches(self.forward(), note_id, x)),
    {
        let (visited, _) = search(&self.dependencies, note_id, None);
        let mut visited = visited;
        visited.remove(&note_id);
        visited
    }

    /// Whether `source` depends on `target`, directly or through other
    /// notes. A note depends on itself only where it lies on a cycle.
    fn has_dependency_path(&self, source: u32, target: u32) -> (r: bool)
        ensures
            r == reaches(self.forward(), source, target),
    {
        let (_, found) = search(&self.dependencies, source, Some(target));
        found
    }

    /// Cycles among the dependencies, one for every edge that closes one
    /// in a depth-first search. Each cycle is listed from a note back to
    /// the same note and holds no other note twice. The closing edges of
    /// the cycles differ; none of them lies in a cycle before its closing
    /// edge; and without them the graph has no cycle. The list is empty
    /// exactly where the graph has no cycle.
    fn detect_cycles(&self) -> (r: Vec<Vec<u32>>)
        ensures
            forall|i: int| 0 <= i < r@.len() ==> is_cycle(self.forward(), (#[trigger] r@[i])@),
            (r@.len() == 0) <==> !has_cycle(self.forward()),
            forall|i: int| 0 <= i < r@.len() ==> (#[trigger] r@[i])@.drop_last().no_duplicates(),
            forall|i: int, j: int|
                0 <= i < r@.len() && 0 <= j < r@.len() && i != j ==> closing((#[trigger] r@[i])@)
                    != closing((#[trigger] r@[j])@),
            !has_cycle(without(self.forward(), closing_set(lists(r@)))),
            forall|i: int|
                0 <= i < r@.len() ==> is_chain(
                    without(self.forward(), closing_set(lists(r@))),
                    (#[trigger] r@[i])@.drop_last(),
                ),
    {
        find_cycles(&self.dependencies)
    }

    /// An order in which the given notes can be evaluated: every note
    /// comes after the notes among the given ones that it depends on. Notes
    /// that lie on a cycle among the given ones, or depend on such a note,
    /// are left out; where the graph has no cycle, every given note is
    /// listed. Of the notes that are ready, the one with the smallest id is
    /// taken first.
    fn get_evaluation_order(&self, note_ids: &HashSet<u32>) -> (r: Vec<u32>)
        requires
            self.consistent(),
        ensures
            takes_smallest_ready(self.forward(), note_ids@, r@),
            is_evaluation_order(self.forward(), note_ids@, r@),
            !has_cycle(self.forward()) ==> r@.to_set() == note_ids@,
    {
        proof {
            let fwd = edges_of(self.dependencies@);
            let inv = edges_of(self.dependents@);
            assert forall|a: u32, b: u32|
                #![trigger has_edge(fwd, a, b)]
                #![trigger has_edge(inv, b, a)]
                has_edge(fwd, a, b) <==> has_edge(inv, b, a) by {
                assert(has_edge(self.forward(), a, b) <==> has_edge(self.inverse(), b, a));
            }
        }
        let order = evaluation_order(&self.dependencies, &self.dependents, note_ids);
        proof {
            if !has_cycle(self.forward()) {
                lemma_order_lists_all(self.forward(), note_ids@, order@);
            }
        }
        order
    }

    /// Counts that describe the graph.
    fn stats(&self) -> (r: GraphStats)
        ensures
            r.note_count == self.forward().dom().len(),
            r.base_note_dependents == self.base_dependents().len(),
            forall|a: u32|
                self.forward().contains_key(a) ==> self.forward()[a].len() <= r.max_dependencies,
            r.max_dependencies > 0 ==> exists|a: u32|
                self.forward().contains_key(a) && self.forward()[a].len() == r.max_dependencies,
            forall|b: u32|
                self.inverse().contains_key(b) ==> self.inverse()[b].len() <= r.max_dependents,
            r.max_dependents > 0 ==> exists|b: u32|
                self.inverse().contains_key(b) && self.inverse()[b].len() == r.max_dependents,
            r.total_dependencies == (if edge_count(self.forward()) <= usize::MAX {
                edge_count(self.forward())
            } else {
                usize::MAX as nat
            }),
    {
        assert(self.forward().dom() =~= self.dependencies@.dom());
        let keys = keys_of(&self.dependencies);
        let ghost adder = add_degree(self.forward());
        let ghost mut sum: nat = 0;
        let mut total: usize = 0;
        let mut max_deps: usize = 0;
        let mut i: usize = 0;
        proof {
            assert(keys@.take(0).to_set() =~= Set::<u32>::empty());
            lemma_fold_empty::<u32, nat>(0nat, adder);
        }
        while i < keys.len()
            invariant
                i <= keys.len(),
                keys@.to_set() == self.dependencies@.dom(),
                keys@.no_duplicates(),
                adder == add_degree(self.forward()),
                sum == keys@.take(i as int).to_set().fold(0nat, adder),
                total == (if sum <= usize::MAX {
                    sum
                } else {
                    usize::MAX as nat
                }),
                forall|k: int|
                    0 <= k < i ==> self.forward()[#[trigger] keys@[k]].len() <= max_deps,
                max_deps > 0 ==> exists|a: u32|
                    self.forward().contains_key(a) && self.forward()[a].len() == max_deps,
            decreases keys.len() - i,
        {
            let key = keys[i];
            assert(keys@.to_set().contains(key));
            proof {
                let seen = keys@.take(i as int).to_set();
                assert(keys@.take(i + 1).to_set() =~= seen.insert(key)) by {
                    assert(keys@.take(i + 1) =~= keys@.take(i as int).push(key));
                    lemma_push_to_set(keys@.take(i as int), key);
                }
                assert(!seen.contains(key)) by {
                    if seen.contains(key) {
                        let k = choose|k: int|
                            0 <= k < keys@.take(i as int).len() && keys@.take(i as int)[k] == key;
                        assert(keys@[k] == keys@[i as int]);
                    }
                }
                assert(is_fun_commutative(adder));
                lemma_fold_insert(seen, 0nat, adder, key);
                sum = sum + self.forward()[key].len();
            }
            match self.dependencies.get(&key) {
                Some(set) => {
                    let n = set.len();
                    total = if total > usize::MAX - n {
                        usize::MAX
                    } else {
                        total + n
                    };
                    if n > max_deps {
                        max_deps = n;
                        assert(self.forward().contains_key(key) && self.forward()[key].len()
                            == n);
                    }
                },
                None => {},
            }
            i = i + 1;
        }
        proof {
            assert(keys@.take(keys@.len() as int) =~= keys@);
            assert forall|a: u32| self.forward().contains_key(a) implies self.forward()[a].len()
                <= max_deps by {
                assert(keys@.to_set().contains(a));
                let k = choose|k: int| 0 <= k < keys@.len() && keys@[k] == a;
                assert(self.forward()[keys@[k]].len() <= max_deps);
            }
        }
        assert(self.inverse().dom() =~= self.dependents@.dom());
        let targets_list = keys_of(&self.dependents);
        let mut max_dependents: usize = 0;
        let mut j: usize = 0;
        while j < targets_list.len()
            invariant
                j <= targets_list.len(),
                targets_list@.to_set() == self.dependents@.dom(),
                forall|k: int|
                    0 <= k < j ==> self.inverse()[#[trigger] targets_list@[k]].len()
                        <= max_dependents,
                max_dependents > 0 ==> exists|b: u32|
                    self.inverse().contains_key(b) && self.inverse()[b].len() == max_dependents,
            decreases targets_list.len() - j,
        {
            let key = targets_list[j];
            assert(targets_list@.to_set().contains(key));
            match self.dependents.get(&key) {
                Some(set) => {
                    let n = set.len();
                    if n > max_dependents {
                        max_dependents = n;
                        assert(self.inverse().contains_key(key) && self.inverse()[key].len()
                            == n);
                    }
                },
                None => {},
            }
            j = j + 1;
        }
        proof {
            assert forall|b: u32| self.inverse().contains_key(b) implies self.inverse()[b].len()
                <= max_dependents by {
                assert(targets_list@.to_set().contains(b));
                let k = choose|k: int| 0 <= k < targets_list@.len() && targets_list@[k] == b;
                assert(self.inverse()[targets_list@[k]].len() <= max_dependents);
            }
        }
        GraphStats {
            note_count: self.dependencies.len(),
            total_dependencies: total,
            max_dependencies: max_deps,
            max_dependents,
            base_note_dependents: self.base_note_dependents.len(),
        }
    }
}

/// The dependencies between notes, with the notes that refer to the base
/// note. The two indices always hold the same edges.
pub struct DependencyGraph {
    inner: Indices,
}

impl DependencyGraph {
    /// The dependencies of every registered note.
    pub closed spec fn forward(&self) -> Edges {
        self.inner.forward()
    }

    /// The dependents of every note that a registered note depends on.
    pub closed spec fn inverse(&self) -> Edges {
        self.inner.inverse()
    }

    /// The notes that refer to the base note.
    pub closed spec fn base_dependents(&self) -> Set<u32> {
        self.inner.base_dependents()
    }

    /// Whether the two indices hold the same edges. They always do.
    #[verifier::type_invariant]
    pub open spec fn consistent(&self) -> bool {
        forall|a: u32, b: u32|
            #![trigger has_edge(self.forward(), a, b)]
            #![trigger has_edge(self.inverse(), b, a)]
            has_edge(self.forward(), a, b) <==> has_edge(self.inverse(), b, a)
    }

    /// The indices of a consistent graph are consistent.
    proof fn lemma_indices_consistent(&self)
        requires
            self.consistent(),
        ensures
            self.inner.consistent(),
    {
        assert forall|a: u32, b: u32|
            #![trigger has_edge(self.inner.forward(), a, b)]
            #![trigger has_edge(self.inner.inverse(), b, a)]
            has_edge(self.inner.forward(), a, b) <==> has_edge(self.inner.inverse(), b, a) by {
            assert(has_edge(self.forward(), a, b) <==> has_edge(self.inverse(), b, a));
        }
    }

    /// An empty graph.
    pub fn new() -> (r: DependencyGraph)
        ensures
            r.forward() == Map::<u32, Set<u32>>::empty(),
            r.inverse() == Map::<u32, Set<u32>>::empty(),
            r.base_dependents() == Set::<u32>::empty(),
            r.consistent(),
    {
        DependencyGraph { inner: Indices::new() }
    }

    /// The number of registered notes.
    pub fn note_count(&self) -> (r: usize)
        ensures
            r == self.forward().dom().len(),
    {
        proof {
            use_type_invariant(self);
        }
        self.inner.note_count()
    }

    /// Whether a note is registered.
    pub fn has_note(&self, note_id: u32) -> (r: bool)
        ensures
            r == self.forward().contains_key(note_id),
    {
        proof {
            use_type_invariant(self);
        }
        self.inner.has_note(note_id)
    }

    /// Removes every note and every edge.
    pub fn clear(&mut self)
        ensures
            final(self).forward() == Map::<u32, Set<u32>>::empty(),
            final(self).inverse() == Map::<u32, Set<u32>>::empty(),
            final(self).base_dependents() == Set::<u32>::empty(),
            final(self).consistent(),
    {
        proof {
            use_type_invariant(&*self);
        }
        let mut inner = Indices::new();
        std::mem::swap(&mut inner, &mut self.inner);
        inner.clear();
        self.inner = inner;
    }

    /// Registers a note with its dependencies, in place of those it had, and
    /// records whether it refers to the base note.
    pub fn update_dependencies(
        &mut self,
        note_id: u32,
        new_deps: HashSet<u32>,
        references_base: bool,
    )
        ensures
            final(self).consistent(),
            final(self).forward() == old(self).forward().insert(note_id, new_deps@),
            final(self).base_dependents() == (if references_base {
                old(self).base_dependents().insert(note_id)
            } else {
                old(self).base_dependents().remove(note_id)
            }),
    {
        proof {
            use_type_invariant(&*self);
            self.lemma_indices_consistent();
        }
        let mut inner = Indices::new();
        std::mem::swap(&mut inner, &mut self.inner);
        inner.update_dependencies(note_id, new_deps, references_base);
        self.inner = inner;
    }

    /// Removes a note with every edge from it and to it.
    pub fn remove_note(&mut self, note_id: u32)
        ensures
            final(self).consistent(),
            final(self).forward().dom() == old(self).forward().dom().remove(note_id),
            forall|a: u32, b: u32|
                #![trigger has_edge(final(self).forward(), a, b)]
                #![trigger has_edge(old(self).forward(), a, b)]
                has_edge(final(self).forward(), a, b) <==> (has_edge(old(self).forward(), a, b)
                    && a != note_id && b != note_id),
            final(self).base_dependents() == old(self).base_dependents().remove(note_id),
    {
        proof {
            use_type_invariant(&*self);
            self.lemma_indices_consistent();
        }
        let mut inner = Indices::new();
        std::mem::swap(&mut inner, &mut self.inner);
        inner.remove_note(note_id);
        self.inner = inner;
    }

    /// The notes that a note depends on directly.
    pub fn get_dependencies(&self, note_id: u32) -> (r: HashSet<u32>)
        ensures
            r@ == targets(self.forward(), note_id),
    {
        proof {
            use_type_invariant(self);
        }
        self.inner.get_dependencies(note_id)
    }

    /// The notes that depend on a note directly.
    pub fn get_dependents(&self, note_id: u32) -> (r: HashSet<u32>)
        ensures
            r@ == targets(self.inverse(), note_id),
    {
        proof {
            use_type_invariant(self);
        }
        self.inner.get_dependents(note_id)
    }

    /// The notes that refer to the base note.
    pub fn get_base_note_dependents(&self) -> (r: HashSet<u32>)
        ensures
            r@ == self.base_dependents(),
    {
        proof {
            use_type_invariant(self);
        }
        self.inner.get_base_note_dependents()
    }

    /// The notes that depend on a note, directly or through other notes,
    /// without the note itself.
    pub fn get_all_dependents(&self, note_id: u32) -> (r: HashSet<u32>)
        ensures
            forall|x: u32| r@.contains(x) <==> (x != note_id && reaches(self.inverse(), note_id, x)),
    {
        proof {
            use_type_invariant(self);
        }
        self.inner.get_all_dependents(note_id)
    }

    /// The notes that a note depends on, directly or through other notes,
    /// without the note itself.
    pub fn get_all_dependencies(&self, note_id: u32) -> (r: HashSet<u32>)
        ensures
            forall|x: u32| r@.contains(x) <==> (x != note_id && reaches(self.forward(), note_id, x)),
    {
        proof {
            use_type_invariant(self);
        }
        self.inner.get_all_dependencies(note_id)
    }

    /// Whether `source` depends on `target`, directly or through other
    /// notes. A note depends on itself only where it lies on a cycle.
    pub fn has_dependency_path(&self, source: u32, target: u32) -> (r: bool)
        ensures
            r == reaches(self.forward(), source, target),
    {
        proof {
            use_type_invariant(self);
        }
        self.inner.has_dependency_path(source, target)
    }

    /// Cycles among the dependencies, one for every edge that closes one
    /// in a depth-first search. Each cycle is listed from a note back to
    /// the same note and holds no other note twice. The closing edges of
    /// the cycles differ; none of them lies in a cycle before its closing
    /// edge; and without them the graph has no cycle. The list is empty
    /// exactly where the graph has no cycle.
    pub fn detect_cycles(&self) -> (r: Vec<Vec<u32>>)
        ensures
            forall|i: int| 0 <= i < r@.len() ==> is_cycle(self.forward(), (#[trigger] r@[i])@),
            (r@.len() == 0) <==> !has_cycle(self.forward()),
            forall|i: int| 0 <= i < r@.len() ==> (#[trigger] r@[i])@.drop_last().no_duplicates(),
            forall|i: int, j: int|
                0 <= i < r@.len() && 0 <= j < r@.len() && i != j ==> closing((#[trigger] r@[i])@)
                    != closing((#[trigger] r@[j])@),
            !has_cycle(without(self.forward(), closing_set(lists(r@)))),
            forall|i: int|
                0 <= i < r@.len() ==> is_chain(
                    without(self.forward(), closing_set(lists(r@))),
                    (#[trigger] r@[i])@.drop_last(),
                ),
    {
        proof {
            use_type_invariant(self);
        }
        self.inner.detect_cycles()
    }

    /// An order in which the given notes can be evaluated: every note
    /// comes after the notes among the given ones that it depends on. Notes
    /// that lie on a cycle among the given ones, or depend on such a note,
    /// are left out; where the graph has no cycle, every given note is
    /// listed. Of the notes that are ready, the one with the smallest id is
    /// taken first.
    pub fn get_evaluation_order(&self, note_ids: &HashSet<u32>) -> (r: Vec<u32>)
        ensures
            takes_smallest_ready(self.forward(), note_ids@, r@),
            is_evaluation_order(self.forward(), note_ids@, r@),
            !has_cycle(self.forward()) ==> r@.to_set() == note_ids@,
    {
        proof {
            use_type_invariant(self);
            self.lemma_indices_consistent();
        }
        self.inner.get_evaluation_order(note_ids)
    }

    /// Counts that describe the graph.
    pub fn stats(&self) -> (r: GraphStats)
        ensures
            r.note_count == self.forward().dom().len(),
            r.base_note_dependents == self.base_dependents().len(),
            forall|a: u32|
                self.forward().contains_key(a) ==> self.forward()[a].len() <= r.max_dependencies,
            r.max_dependencies > 0 ==> exists|a: u32|
                self.forward().contains_key(a) && self.forward()[a].len() == r.max_dependencies,
            forall|b: u32|
                self.inverse().contains_key(b) ==> self.inverse()[b].len() <= r.max_dependents,
            r.max_dependents > 0 ==> exists|b: u32|
                self.inverse().contains_key(b) && self.inverse()[b].len() == r.max_dependents,
            r.total_dependencies == (if edge_count(self.forward()) <= usize::MAX {
                edge_count(self.forward())
            } else {
                usize::MAX as nat
            }),
    {
        let r = self.inner.stats();
        proof {
            if r.max_dependencies > 0 {
                let a = choose|a: u32|
                    self.inner.forward().contains_key(a) && self.inner.forward()[a].len()
                        == r.max_dependencies;
                assert(self.forward().contains_key(a) && self.forward()[a].len()
                    == r.max_dependencies);
            }
            if r.max_dependents > 0 {
                let b = choose|b: u32|
                    self.inner.inverse().contains_key(b) && self.inner.inverse()[b].len()
                        == r.max_dependents;
                assert(self.inverse().contains_key(b) && self.inverse()[b].len()
                    == r.max_dependents);
            }
        }
        r
    }

}

impl Default for DependencyGraph {
    fn default() -> (r: DependencyGraph)
        ensures
            r.forward() == Map::<u32, Set<u32>>::empty(),
            r.consistent(),
    {
        DependencyGraph::new()
    }
}

} // verus!
