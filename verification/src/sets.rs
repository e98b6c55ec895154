//! Sets of note ids: listing, copying and sorting their members.

use std::collections::HashMap;
use std::collections::HashSet;
use vstd::prelude::*;
use vstd::set_lib::lemma_int_range;
use vstd::set_lib::lemma_len_subset;
use vstd::set_lib::set_int_range;
use vstd::std_specs::hash::group_hash_axioms;

verus! {

broadcast use group_hash_axioms;

/// Whether a sequence ascends, possibly with repetitions.
pub open spec fn ascending(s: Seq<u32>) -> bool {
    forall|i: int, j: int| 0 <= i < j < s.len() ==> s[i] <= s[j]
}

/// Whether a sequence ascends without repetitions.
pub open spec fn strictly_ascending(s: Seq<u32>) -> bool {
    forall|i: int, j: int| 0 <= i < j < s.len() ==> s[i] < s[j]
}

/// A sequence of distinct 32-bit numbers has at most 2^32 elements.
pub proof fn lemma_distinct_u32_bound(s: Seq<u32>)
    requires
        s.no_duplicates(),
    ensures
        s.len() <= 0x1_0000_0000,
{
    let ints = s.map_values(|x: u32| x as int);
    assert(ints.no_duplicates()) by {
        assert forall|i: int, j: int| 0 <= i < ints.len() && 0 <= j < ints.len() && i != j implies ints[i]
            != ints[j] by {
            assert(s[i] != s[j]);
        }
    }
    ints.unique_seq_to_set();
    lemma_int_range(0, 0x1_0000_0000);
    assert(ints.to_set().subset_of(set_int_range(0, 0x1_0000_0000))) by {
        assert forall|v: int| ints.to_set().contains(v) implies set_int_range(
            0,
            0x1_0000_0000,
        ).contains(v) by {
            let k = choose|k: int| 0 <= k < ints.len() && ints[k] == v;
            assert(ints[k] == s[k] as int);
        }
    }
    lemma_len_subset(ints.to_set(), set_int_range(0, 0x1_0000_0000));
}

/// The members of a set, each once, in no particular order.
pub fn members(set: &HashSet<u32>) -> (r: Vec<u32>)
    ensures
        r@.to_set() == set@,
        r@.no_duplicates(),
{
    let mut out: Vec<u32> = Vec::new();
    for x in iter: set.iter()
        invariant
            out@.len() == iter.index(),
            forall|k: int| 0 <= k < out@.len() ==> out@[k] == *iter.seq()[k],
            iter.seq().unref().to_set() == set@,
            iter.seq().no_duplicates(),
            out@.no_duplicates(),
            forall|v: u32| out@.contains(v) ==> set@.contains(v),
            forall|v: u32|
                set@.contains(v) ==> out@.contains(v) || exists|k: int|
                    iter.index() <= k < iter.seq().len() && *iter.seq()[k] == v,
    {
        proof {
            let i = iter.index();
            assert(iter.seq().unref()[i] == *x);
            assert(iter.seq().unref().to_set().contains(*x));
            assert forall|k: int| 0 <= k < out@.len() implies out@[k] != *x by {
                assert(iter.seq()[k] != iter.seq()[i]);
            }
        }
        let ghost before = out@;
        out.push(*x);
        proof {
            assert forall|v: u32| out@.contains(v) implies set@.contains(v) by {
                let k = choose|k: int| 0 <= k < out@.len() && out@[k] == v;
                if k < before.len() {
                    assert(before.contains(v));
                }
            }
            assert forall|v: u32| set@.contains(v) implies out@.contains(v) || exists|k: int|
                iter.index() + 1 <= k < iter.seq().len() && *iter.seq()[k] == v by {
                if before.contains(v) {
                    let k = choose|k: int| 0 <= k < before.len() && before[k] == v;
                    assert(out@[k] == v);
                } else {
                    let k = choose|k: int|
                        iter.index() <= k < iter.seq().len() && *iter.seq()[k] == v;
                    if k == iter.index() {
                        assert(out@[before.len() as int] == v);
                    }
                }
            }
        }
    }
    assert(out@.to_set() =~= set@);
    out
}

/// The keys of a map, each once, in no particular order.
pub fn keys_of<V>(map: &HashMap<u32, V>) -> (r: Vec<u32>)
    ensures
        r@.to_set() == map@.dom(),
        r@.no_duplicates(),
{
    let mut out: Vec<u32> = Vec::new();
    for x in iter: map.keys()
        invariant
            out@.len() == iter.index(),
            forall|k: int| 0 <= k < out@.len() ==> out@[k] == *iter.seq()[k],
            iter.seq().unref().to_set() == map@.dom(),
            iter.seq().no_duplicates(),
            out@.no_duplicates(),
            forall|v: u32| out@.contains(v) ==> map@.dom().contains(v),
            forall|v: u32|
                map@.dom().contains(v) ==> out@.contains(v) || exists|k: int|
                    iter.index() <= k < iter.seq().len() && *iter.seq()[k] == v,
    {
        proof {
            let i = iter.index();
            assert(iter.seq().unref()[i] == *x);
            assert(iter.seq().unref().to_set().contains(*x));
            assert forall|k: int| 0 <= k < out@.len() implies out@[k] != *x by {
                assert(iter.seq()[k] != iter.seq()[i]);
            }
        }
        let ghost before = out@;
        out.push(*x);
        proof {
            assert forall|v: u32| out@.contains(v) implies map@.dom().contains(v) by {
                let k = choose|k: int| 0 <= k < out@.len() && out@[k] == v;
                if k < before.len() {
                    assert(before.contains(v));
                }
            }
            assert forall|v: u32| map@.dom().contains(v) implies out@.contains(v) || exists|
                k: int,
            |
                iter.index() + 1 <= k < iter.seq().len() && *iter.seq()[k] == v by {
                if before.contains(v) {
                    let k = choose|k: int| 0 <= k < before.len() && before[k] == v;
                    assert(out@[k] == v);
                } else {
                    let k = choose|k: int|
                        iter.index() <= k < iter.seq().len() && *iter.seq()[k] == v;
                    if k == iter.index() {
                        assert(out@[before.len() as int] == v);
                    }
                }
            }
        }
    }
    assert(out@.to_set() =~= map@.dom());
    out
}

/// The set of the numbers in a slice.
pub fn set_of(ids: &[u32]) -> (r: HashSet<u32>)
    ensures
        r@ == ids@.to_set(),
{
    let mut out: HashSet<u32> = HashSet::new();
    let mut i: usize = 0;
    assert(out@ =~= ids@.take(0).to_set());
    while i < ids.len()
        invariant
            i <= ids.len(),
            out@ == ids@.take(i as int).to_set(),
        decreases ids.len() - i,
    {
        out.insert(ids[i]);
        proof {
            let prev = ids@.take(i as int);
            let next = ids@.take(i as int + 1);
            assert(next =~= prev.push(ids@[i as int]));
            lemma_push_to_set(prev, ids@[i as int]);
        }
        i = i + 1;
    }
    assert(ids@.take(ids@.len() as int) =~= ids@);
    out
}

/// The set of a sequence with one more element is the set with that element
/// put in.
pub proof fn lemma_push_to_set(s: Seq<u32>, x: u32)
    ensures
        s.push(x).to_set() == s.to_set().insert(x),
{
    let next = s.push(x);
    assert forall|v: u32| next.to_set().contains(v) <==> s.to_set().insert(x).contains(v) by {
        if s.contains(v) {
            let k = choose|k: int| 0 <= k < s.len() && s[k] == v;
            assert(next[k] == v);
        }
        if next.contains(v) {
            let k = choose|k: int| 0 <= k < next.len() && next[k] == v;
            if k < s.len() {
                assert(s[k] == v);
            }
        }
        assert(next[s.len() as int] == x);
    }
    assert(next.to_set() =~= s.to_set().insert(x));
}

/// A copy of a set.
pub fn copy_set(set: &HashSet<u32>) -> (r: HashSet<u32>)
    ensures
        r@ == set@,
{
    let all = members(set);
    set_of(all.as_slice())
}

/// The numbers of a sequence in ascending order.
pub fn sort_ascending(v: &Vec<u32>) -> (r: Vec<u32>)
    ensures
        ascending(r@),
        r@.len() == v@.len(),
        r@.to_set() == v@.to_set(),
        v@.no_duplicates() ==> strictly_ascending(r@),
{
    let mut out: Vec<u32> = Vec::new();
    let mut i: usize = 0;
    assert(out@.to_set() =~= v@.take(0).to_set());
    while i < v.len()
        invariant
            i <= v.len(),
            out@.len() == i,
            ascending(out@),
            out@.to_set() == v@.take(i as int).to_set(),
            v@.no_duplicates() ==> strictly_ascending(out@),
        decreases v.len() - i,
    {
        let x = v[i];
        let mut j: usize = out.len();
        while j > 0 && out[j - 1] > x
            invariant
                j <= out.len(),
                forall|k: int| j <= k < out.len() ==> out@[k] > x,
            decreases j,
        {
            j = j - 1;
        }
        let ghost before = out@;
        out.insert(j, x);
        proof {
            let prev = v@.take(i as int);
            let next = v@.take(i as int + 1);
            assert(next =~= prev.push(x));
            lemma_push_to_set(prev, x);
            assert(out@ == before.insert(j as int, x));
            assert forall|a: u32| out@.to_set().contains(a) <==> before.to_set().insert(
                x,
            ).contains(a) by {
                if before.contains(a) {
                    let k = choose|k: int| 0 <= k < before.len() && before[k] == a;
                    if k < j {
                        assert(out@[k] == a);
                    } else {
                        assert(out@[k + 1] == a);
                    }
                }
                if out@.contains(a) {
                    let k = choose|k: int| 0 <= k < out@.len() && out@[k] == a;
                    if k < j {
                        assert(before[k] == a);
                    } else if k > j {
                        assert(before[k - 1] == a);
                    }
                }
                assert(out@[j as int] == x);
            }
            assert(out@.to_set() =~= before.to_set().insert(x));
            assert forall|a: int, b: int| 0 <= a < b < out@.len() implies out@[a] <= out@[b] by {
                let pa = if a < j {
                    a
                } else {
                    a - 1
                };
                let pb = if b < j {
                    b
                } else {
                    b - 1
                };
                if a != j && b != j {
                    assert(before[pa] <= before[pb]);
                } else if a == j {
                    assert(before[pb] > x);
                } else {
                    if j > 0 {
                        assert(before[pa] <= before[j as int - 1]);
                    }
                }
            }
            if v@.no_duplicates() {
                assert(!prev.contains(x)) by {
                    if prev.contains(x) {
                        let k = choose|k: int| 0 <= k < prev.len() && prev[k] == x;
                        assert(v@[k] == v@[i as int]);
                    }
                }
                assert(!before.to_set().contains(x));
                assert forall|a: int, b: int| 0 <= a < b < out@.len() implies out@[a]
                    < out@[b] by {
                    let pa = if a < j {
                        a
                    } else {
                        a - 1
                    };
                    let pb = if b < j {
                        b
                    } else {
                        b - 1
                    };
                    if a != j && b != j {
                        assert(before[pa] < before[pb]);
                    } else if a == j {
                        assert(before[pb] > x);
                    } else {
                        assert(before.contains(before[pa]));
                        if j > 0 {
                            assert(before[pa] <= before[j as int - 1]);
                        }
                    }
                }
            }
        }
        i = i + 1;
    }
    assert(v@.take(v@.len() as int) =~= v@);
    out
}

} // verus!
