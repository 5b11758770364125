//! Ascending walks over ordered sets and maps with integer keys.

use std::collections::{BTreeMap, BTreeSet};
use vstd::prelude::*;
use vstd::std_specs::cmp::OrdSpec;
use vstd::std_specs::iter::IteratorSpec;

verus! {

/// Whether every element is smaller than all the elements after it.
pub open spec fn strictly_increasing(s: Seq<u64>) -> bool {
    forall|i: int, j: int| 0 <= i < j < s.len() ==> s[i] < s[j]
}

/// Whether `s` lists the elements of `set` in ascending order.
pub open spec fn lists_ascending(s: Seq<u64>, set: Set<u64>) -> bool {
    &&& strictly_increasing(s)
    &&& forall|k: u64|
        #![trigger set.contains(k)]
        #![trigger s.contains(k)]
        set.contains(k) <==> s.contains(k)
}

/// The elements of `set` in ascending order.
pub open spec fn ascending(set: Set<u64>) -> Seq<u64> {
    choose|s: Seq<u64>| lists_ascending(s, set)
}

/// A set has at most one ascending listing.
pub proof fn lemma_listing_is_unique(a: Seq<u64>, b: Seq<u64>, set: Set<u64>)
    requires
        lists_ascending(a, set),
        lists_ascending(b, set),
    ensures
        a == b,
    decreases a.len(),
{
    if a.len() == 0 {
        if b.len() > 0 {
            assert(b.contains(b[0]));
            assert(a.contains(b[0]));
        }
        assert(a =~= b);
    } else if b.len() == 0 {
        assert(a.contains(a[0]));
        assert(b.contains(a[0]));
    } else {
        let x = a.last();
        let y = b.last();
        assert(a.contains(x) && b.contains(y));
        assert(b.contains(x) && a.contains(y));
        let i = choose|i: int| 0 <= i < b.len() && b[i] == x;
        let j = choose|j: int| 0 <= j < a.len() && a[j] == y;
        assert(x == y);
        let a0 = a.drop_last();
        let b0 = b.drop_last();
        let rest = set.remove(x);
        assert forall|k: u64| #[trigger] rest.contains(k) <==> a0.contains(k) by {
            if rest.contains(k) {
                let i = choose|i: int| 0 <= i < a.len() && a[i] == k;
                assert(a0[i] == k);
            }
            if a0.contains(k) {
                let i = choose|i: int| 0 <= i < a0.len() && a0[i] == k;
                assert(a[i] == k);
                assert(a.contains(k));
            }
        }
        assert forall|k: u64| #[trigger] rest.contains(k) <==> b0.contains(k) by {
            if rest.contains(k) {
                let i = choose|i: int| 0 <= i < b.len() && b[i] == k;
                assert(b0[i] == k);
            }
            if b0.contains(k) {
                let i = choose|i: int| 0 <= i < b0.len() && b0[i] == k;
                assert(b[i] == k);
                assert(b.contains(k));
            }
        }
        lemma_listing_is_unique(a0, b0, rest);
        assert(a =~= a0.push(x));
        assert(b =~= b0.push(y));
    }
}

/// Every finite set has an ascending listing.
pub proof fn lemma_listing_exists(set: Set<u64>)
    requires
        set.finite(),
    ensures
        lists_ascending(ascending(set), set),
    decreases set.len(),
{
    if set.len() == 0 {
        assert(set =~= Set::empty());
        assert(lists_ascending(Seq::empty(), set));
    } else {
        let leq = |a: u64, b: u64| a <= b;
        let greatest = set.find_unique_maximal(leq);
        set.find_unique_maximal_ensures(leq);
        let rest = set.remove(greatest);
        lemma_listing_exists(rest);
        let s = ascending(rest).push(greatest);
        assert forall|k: u64| #[trigger] set.contains(k) <==> s.contains(k) by {
            if rest.contains(k) {
                let i = choose|i: int| 0 <= i < ascending(rest).len() && ascending(rest)[i] == k;
                assert(s[i] == k);
            }
            if k == greatest {
                assert(s[s.len() - 1] == k);
            }
            if s.contains(k) {
                let i = choose|i: int| 0 <= i < s.len() && s[i] == k;
                if i < s.len() - 1 {
                    assert(ascending(rest)[i] == k);
                    assert(ascending(rest).contains(k));
                }
            }
        }
        assert forall|i: int, j: int| 0 <= i < j < s.len() implies s[i] < s[j] by {
            assert(ascending(rest).contains(ascending(rest)[i]));
            if j == s.len() - 1 {
                assert(rest.contains(s[i]));
                assert(leq(s[i], greatest) || leq(greatest, s[i]));
            }
        }
        assert(lists_ascending(s, set));
    }
}

/// A listing is as long as its set is large.
pub proof fn lemma_listing_length(set: Set<u64>)
    requires
        set.finite(),
    ensures
        ascending(set).len() == set.len(),
{
    lemma_listing_exists(set);
    let s = ascending(set);
    s.unique_seq_to_set();
    assert(s.to_set() =~= set);
}

/// What an increasing walk by reference says of the integers behind the references.
proof fn lemma_walk_is_increasing(walk: Seq<&u64>)
    requires
        vstd::std_specs::btree::increasing_seq(walk),
    ensures
        strictly_increasing(walk.unref()),
{
    assert(vstd::laws_cmp::obeys_cmp::<&u64>());
    assert forall|i: int, j: int| 0 <= i < j < walk.len() implies walk.unref()[i]
        < walk.unref()[j] by {
        assert(OrdSpec::cmp_spec(&walk[i], &walk[j]) is Less);
    }
}

/// The elements of `set` in ascending order.
pub fn ascending_elements(set: &BTreeSet<u64>) -> (keys: Vec<u64>)
    ensures
        keys@ == ascending(set@),
        lists_ascending(keys@, set@),
        keys@.len() == set@.len(),
{
    let mut keys: Vec<u64> = Vec::new();
    let ghost walk = set.iter().remaining();
    for k in it: set.iter()
        invariant
            it.seq() == walk,
            keys@.len() == it.index(),
            forall|i: int| 0 <= i < keys@.len() ==> keys@[i] == *it.seq()[i],
    {
        keys.push(*k);
    }
    proof {
        lemma_walk_is_increasing(walk);
        assert(keys@ =~= walk.unref());
        assert forall|k: u64| #[trigger] set@.contains(k) <==> keys@.contains(k) by {
            assert(walk.unref().to_set().contains(k) <==> walk.unref().contains(k));
        }
        lemma_listing_is_unique(keys@, ascending(set@), set@);
    }
    keys
}

/// The keys of `map` in ascending order.
pub fn ascending_keys<V>(map: &BTreeMap<u64, V>) -> (keys: Vec<u64>)
    ensures
        keys@ == ascending(map@.dom()),
        lists_ascending(keys@, map@.dom()),
        keys@.len() == map@.len(),
{
    let mut keys: Vec<u64> = Vec::new();
    let ghost walk = map.keys().remaining();
    for k in it: map.keys()
        invariant
            it.seq() == walk,
            keys@.len() == it.index(),
            forall|i: int| 0 <= i < keys@.len() ==> keys@[i] == *it.seq()[i],
    {
        keys.push(*k);
    }
    proof {
        lemma_walk_is_increasing(walk);
        assert(keys@ =~= walk.unref());
        assert forall|k: u64| #[trigger] map@.dom().contains(k) <==> keys@.contains(k) by {
            assert(walk.unref().to_set().contains(k) <==> walk.unref().contains(k));
        }
        lemma_listing_is_unique(keys@, ascending(map@.dom()), map@.dom());
    }
    keys
}

/// A finite set is listed whole, and in ascending order.
pub proof fn law_listing_is_whole_and_ascending(set: Set<u64>, element: u64, i: int, j: int)
    requires
        set.finite(),
    ensures
        set.contains(element) <==> exists|k: int|
            0 <= k < ascending(set).len() && #[trigger] ascending(set)[k] == element,
        0 <= i < j < ascending(set).len() ==> ascending(set)[i] < ascending(set)[j],
        ascending(set).len() == set.len(),
{
    lemma_listing_exists(set);
    lemma_listing_length(set);
    let s = ascending(set);
    if set.contains(element) {
        assert(s.contains(element));
        let k = choose|k: int| 0 <= k < s.len() && s[k] == element;
        assert(s[k] == element);
    }
    if exists|k: int| 0 <= k < s.len() && #[trigger] s[k] == element {
        assert(s.contains(element));
    }
}

} // verus!
