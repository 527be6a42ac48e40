//! The aggregator: a collection of identifiers as a set, presented in
//! ascending order.

use std::collections::BTreeSet;
use vstd::prelude::*;
use vstd::std_specs::btree::*;
use vstd::std_specs::cmp::OrdSpec;
use vstd::std_specs::iter::IteratorSpec;

verus! {

/// Every element is smaller than the elements behind it.
pub open spec fn strictly_ascending(s: Seq<u32>) -> bool {
    forall|i: int, j: int| 0 <= i < j < s.len() ==> s[i] < s[j]
}

/// The members of `set` that are smaller than `bound`, in ascending order.
pub open spec fn members_below(set: Set<u32>, bound: nat) -> Seq<u32>
    decreases bound,
{
    if bound == 0 {
        Seq::empty()
    } else {
        let rest = members_below(set, (bound - 1) as nat);
        if bound - 1 <= u32::MAX && set.contains((bound - 1) as u32) {
            rest.push((bound - 1) as u32)
        } else {
            rest
        }
    }
}

/// The distinct values of `numbers`, in ascending order.
pub open spec fn aggregated(numbers: Seq<u32>) -> Seq<u32> {
    members_below(numbers.to_set(), 0x1_0000_0000)
}

/// `members_below` lists exactly the members under the bound, each once and
/// in ascending order.
pub proof fn lemma_members_below(set: Set<u32>, bound: nat)
    ensures
        strictly_ascending(members_below(set, bound)),
        forall|x: u32|
            #![trigger members_below(set, bound).contains(x)]
            #![trigger set.contains(x)]
            members_below(set, bound).contains(x) <==> (set.contains(x) && x < bound),
    decreases bound,
{
    let m = members_below(set, bound);
    if bound > 0 {
        let rest = members_below(set, (bound - 1) as nat);
        lemma_members_below(set, (bound - 1) as nat);
        if bound - 1 <= u32::MAX && set.contains((bound - 1) as u32) {
            let top = (bound - 1) as u32;
            assert forall|i: int, j: int| 0 <= i < j < m.len() implies m[i] < m[j] by {
                assert(m[i] == rest[i]);
                assert(rest.contains(rest[i]));
            }
            assert forall|x: u32| m.contains(x) <==> (set.contains(x) && x < bound) by {
                if m.contains(x) {
                    let i = choose|i: int| 0 <= i < m.len() && m[i] == x;
                    if i < rest.len() {
                        assert(rest.contains(x));
                    }
                }
                if set.contains(x) && x < bound {
                    if x == top {
                        assert(m[m.len() - 1] == x);
                    } else {
                        assert(rest.contains(x));
                        let i = choose|i: int| 0 <= i < rest.len() && rest[i] == x;
                        assert(m[i] == x);
                    }
                }
            }
        } else {
            assert forall|x: u32| m.contains(x) <==> (set.contains(x) && x < bound) by {
                if set.contains(x) && x < bound {
                    assert(x < bound - 1);
                }
            }
        }
    }
}

/// An ascending sequence is determined by its members: it is the listing
/// that `members_below` gives.
pub proof fn lemma_ascending_is_members_below(r: Seq<u32>, set: Set<u32>, bound: nat)
    requires
        strictly_ascending(r),
        forall|x: u32|
            #![trigger r.contains(x)]
            #![trigger set.contains(x)]
            r.contains(x) <==> (set.contains(x) && x < bound),
    ensures
        r == members_below(set, bound),
    decreases bound,
{
    if bound == 0 {
        if r.len() > 0 {
            assert(r.contains(r[0]));
        }
        assert(r == Seq::<u32>::empty());
    } else if bound - 1 <= u32::MAX && set.contains((bound - 1) as u32) {
        let top = (bound - 1) as u32;
        assert(r.contains(top));
        let k = choose|k: int| 0 <= k < r.len() && r[k] == top;
        if k < r.len() - 1 {
            assert(r.contains(r[r.len() - 1]));
        }
        let head = r.drop_last();
        assert forall|x: u32| head.contains(x) <==> (set.contains(x) && x < bound - 1) by {
            if head.contains(x) {
                let i = choose|i: int| 0 <= i < head.len() && head[i] == x;
                assert(r[i] == x);
                assert(r.contains(x));
            }
            if set.contains(x) && x < bound - 1 {
                assert(r.contains(x));
                let i = choose|i: int| 0 <= i < r.len() && r[i] == x;
                assert(head[i] == x);
            }
        }
        lemma_ascending_is_members_below(head, set, (bound - 1) as nat);
        assert(r == head.push(top));
    } else {
        assert forall|x: u32| r.contains(x) <==> (set.contains(x) && x < bound - 1) by {
            if set.contains(x) && x < bound {
                assert(x != bound - 1);
            }
        }
        lemma_ascending_is_members_below(r, set, (bound - 1) as nat);
    }
}

/// What the ordered set hands out in increasing order is strictly ascending.
proof fn lemma_increasing_is_ascending(s: Seq<&u32>)
    requires
        increasing_seq(s),
    ensures
        strictly_ascending(s.unref()),
{
    broadcast use {group_btree_axioms, vstd::laws_cmp::group_laws_cmp};

    assert(vstd::laws_cmp::obeys_cmp::<&u32>());
    axiom_increasing_seq_meaning::<&u32>(s);
    assert forall|i: int, j: int| 0 <= i < j < s.len() implies *s[i] < *s[j] by {
        assert(OrdSpec::cmp_spec(&s[i], &s[j]) is Less);
    }
}

/// Removes duplicates from `numbers` and sorts what is left.
pub fn aggregate(numbers: Vec<u32>) -> (result: Vec<u32>)
    ensures
        result@ == aggregated(numbers@),
        strictly_ascending(result@),
        result@.to_set() == numbers@.to_set(),
{
    broadcast use group_btree_axioms;

    let mut set: BTreeSet<u32> = BTreeSet::new();
    let mut i: usize = 0;
    while i < numbers.len()
        invariant
            i <= numbers.len(),
            set@ == numbers@.take(i as int).to_set(),
        decreases numbers.len() - i,
    {
        set.insert(numbers[i]);
        proof {
            assert(numbers@.take(i + 1) == numbers@.take(i as int).push(numbers@[i as int]));
            numbers@.take(i as int).lemma_push_to_set_commute(numbers@[i as int]);
        }
        i += 1;
    }
    assert(numbers@.take(i as int) == numbers@);
    let mut result: Vec<u32> = Vec::new();
    let ghost keys = spec_btree_keys_iter(&set).remaining();
    for n in it: set.iter()
        invariant
            it.seq() == keys,
            result@ == keys.take(it.index() as int).unref(),
    {
        result.push(*n);
    }
    proof {
        assert(result@ == keys.unref());
        lemma_increasing_is_ascending(keys);
        lemma_ascending_is_members_below(result@, numbers@.to_set(), 0x1_0000_0000);
    }
    result
}

/// Aggregation is idempotent and blind to repetition: a collection taken
/// twice, or aggregated once more, gives the same result, and that result is
/// strictly ascending and holds exactly the values of the collection.
pub proof fn lemma_aggregate_idempotent(numbers: Seq<u32>)
    ensures
        aggregated(numbers + numbers) == aggregated(numbers),
        aggregated(aggregated(numbers)) == aggregated(numbers),
        strictly_ascending(aggregated(numbers)),
        aggregated(numbers).to_set() == numbers.to_set(),
{
    lemma_members_below(numbers.to_set(), 0x1_0000_0000);
    assert((numbers + numbers).to_set() =~= numbers.to_set()) by {
        assert forall|x: u32| (numbers + numbers).contains(x) <==> numbers.contains(x) by {
            if (numbers + numbers).contains(x) {
                let i = choose|i: int| 0 <= i < (numbers + numbers).len() && (numbers + numbers)[i] == x;
                if i < numbers.len() {
                    assert(numbers[i] == x);
                } else {
                    assert(numbers[i - numbers.len()] == x);
                }
            }
            if numbers.contains(x) {
                let i = choose|i: int| 0 <= i < numbers.len() && numbers[i] == x;
                assert((numbers + numbers)[i] == x);
            }
        }
    }
    assert(aggregated(numbers).to_set() =~= numbers.to_set());
}

/// Collections with the same values aggregate to the same result, whatever
/// the order and the number of repetitions in them.
pub proof fn lemma_aggregate_order_independent(a: Seq<u32>, b: Seq<u32>)
    requires
        a.to_set() == b.to_set(),
    ensures
        aggregated(a) == aggregated(b),
{
}

} // verus!
