//! What holds of every histogram, however its lines were divided and ordered.

use vstd::prelude::*;
use vstd::seq_lib::*;
use crate::tally::{
    added, bytes_observed, merged, merged_all, plus, recorded, tallied, total, total_all,
    Observation, Tallies, Tally,
};
use crate::tally::{lemma_total_added, lemma_total_remove};

verus! {

/// The domain of a tallied map is finite.
pub proof fn lemma_tallied_finite(observations: Seq<Observation>)
    ensures
        tallied(observations).dom().finite(),
    decreases observations.len(),
{
    if observations.len() > 0 {
        lemma_tallied_finite(observations.drop_last());
    }
}

/// Every observation is counted under exactly one category: the counts of a
/// tallied map sum to the number of observations, and its bytes to the bytes
/// observed.
pub proof fn lemma_tallied_total(observations: Seq<Observation>)
    ensures
        total(tallied(observations)).count == observations.len(),
        total(tallied(observations)).bytes == bytes_observed(observations),
    decreases observations.len(),
{
    if observations.len() > 0 {
        let earlier = observations.drop_last();
        let last = observations.last();
        lemma_tallied_total(earlier);
        lemma_tallied_finite(earlier);
        lemma_total_added(tallied(earlier), last.category, Tally { count: 1, bytes: last.bytes });
    }
}

/// Two additions to a map can be made in either order.
pub proof fn lemma_added_commutes(
    m: Tallies,
    first: Seq<char>,
    a: Tally,
    second: Seq<char>,
    b: Tally,
)
    ensures
        added(added(m, first, a), second, b) == added(added(m, second, b), first, a),
{
    assert(added(added(m, first, a), second, b) =~= added(added(m, second, b), first, a));
}

/// Taking one observation out of its place and recording it last changes
/// nothing.
pub proof fn lemma_tallied_remove(observations: Seq<Observation>, i: int)
    requires
        0 <= i < observations.len(),
    ensures
        tallied(observations) == recorded(
            tallied(observations.remove(i)),
            observations[i].category,
            observations[i].bytes,
        ),
    decreases observations.len(),
{
    let last = observations.last();
    let earlier = observations.drop_last();
    if i == observations.len() - 1 {
        assert(observations.remove(i) =~= earlier);
    } else {
        lemma_tallied_remove(earlier, i);
        let without = observations.remove(i);
        assert(without.drop_last() =~= earlier.remove(i));
        assert(without.last() == last);
        lemma_added_commutes(
            tallied(earlier.remove(i)),
            observations[i].category,
            Tally { count: 1, bytes: observations[i].bytes },
            last.category,
            Tally { count: 1, bytes: last.bytes },
        );
    }
}

/// The tallied map depends on which observations were made, not on the
/// order in which they were recorded.
pub proof fn lemma_tallied_ignores_order(a: Seq<Observation>, b: Seq<Observation>)
    requires
        a.to_multiset() == b.to_multiset(),
    ensures
        tallied(a) == tallied(b),
    decreases a.len(),
{
    broadcast use group_to_multiset_ensures;

    if a.len() == 0 {
        to_multiset_len(a);
        to_multiset_len(b);
    } else {
        let last = a.last();
        let earlier = a.drop_last();
        assert(a =~= earlier.push(last));
        assert(b.to_multiset().count(last) > 0);
        let i = choose|i: int| 0 <= i < b.len() && b[i] == last;
        let without = b.remove(i);
        assert(earlier.to_multiset() =~= without.to_multiset());
        lemma_tallied_ignores_order(earlier, without);
        lemma_tallied_remove(b, i);
    }
}

/// Merging with the empty map changes nothing.
pub proof fn lemma_merged_empty(m: Tallies)
    ensures
        merged(m, Map::empty()) == m,
        merged(Map::empty(), m) == m,
{
    assert(merged(m, Map::empty()) =~= m);
    assert(merged(Map::empty(), m) =~= m);
}

/// The merge is commutative.
pub proof fn lemma_merged_commutes(a: Tallies, b: Tallies)
    ensures
        merged(a, b) == merged(b, a),
{
    assert(merged(a, b) =~= merged(b, a));
}

/// The merge is associative.
pub proof fn lemma_merged_associates(a: Tallies, b: Tallies, c: Tallies)
    ensures
        merged(merged(a, b), c) == merged(a, merged(b, c)),
{
    assert(merged(merged(a, b), c) =~= merged(a, merged(b, c)));
}

/// Adding to one side of a merge adds as much to the merged map.
pub proof fn lemma_merged_added(a: Tallies, b: Tallies, category: Seq<char>, extra: Tally)
    ensures
        merged(a, added(b, category, extra)) == added(merged(a, b), category, extra),
{
    assert(merged(a, added(b, category, extra)) =~= added(merged(a, b), category, extra));
}

/// Tallying two runs of observations apart and merging the results gives
/// what tallying the one run after the other gives.
pub proof fn lemma_merged_tallies_concat(a: Seq<Observation>, b: Seq<Observation>)
    ensures
        merged(tallied(a), tallied(b)) == tallied(a + b),
    decreases b.len(),
{
    if b.len() == 0 {
        assert(a + b =~= a);
        lemma_merged_empty(tallied(a));
    } else {
        let last = b.last();
        assert((a + b).drop_last() =~= a + b.drop_last());
        assert((a + b).last() == last);
        lemma_merged_tallies_concat(a, b.drop_last());
        lemma_merged_added(
            tallied(a),
            tallied(b.drop_last()),
            last.category,
            Tally { count: 1, bytes: last.bytes },
        );
    }
}

/// However the observations of `whole` are divided into two parts, tallying
/// each part independently and merging the two partial maps gives the same
/// as tallying the whole at once.
pub proof fn lemma_merged_parts_make_whole(
    whole: Seq<Observation>,
    a: Seq<Observation>,
    b: Seq<Observation>,
)
    requires
        whole.to_multiset() == a.to_multiset().add(b.to_multiset()),
    ensures
        merged(tallied(a), tallied(b)) == tallied(whole),
{
    lemma_multiset_commutative(a, b);
    lemma_tallied_ignores_order(whole, a + b);
    lemma_merged_tallies_concat(a, b);
}

/// The total of a merged map is the sum of the totals of its parts.
pub proof fn lemma_total_merged(a: Tallies, b: Tallies)
    requires
        a.dom().finite(),
        b.dom().finite(),
    ensures
        merged(a, b).dom().finite(),
        total(merged(a, b)) == plus(total(a), total(b)),
    decreases b.dom().len(),
{
    if b.dom().len() == 0 {
        assert(b =~= Map::empty());
        lemma_merged_empty(a);
    } else {
        let category = b.dom().choose();
        let rest = b.remove(category);
        lemma_total_merged(a, rest);
        lemma_total_remove(b, category);
        assert(b =~= added(rest, category, b[category]));
        lemma_merged_added(a, rest, category, b[category]);
        lemma_total_added(merged(a, rest), category, b[category]);
    }
}

/// The total of any number of merged maps is the sum of their totals.
pub proof fn lemma_total_merged_all(parts: Seq<Tallies>)
    requires
        forall|i: int| 0 <= i < parts.len() ==> (#[trigger] parts[i]).dom().finite(),
    ensures
        merged_all(parts).dom().finite(),
        total(merged_all(parts)) == total_all(parts),
    decreases parts.len(),
{
    if parts.len() > 0 {
        let earlier = parts.drop_last();
        assert forall|i: int| 0 <= i < earlier.len() implies (#[trigger] earlier[i]).dom().finite() by {
            assert(earlier[i] == parts[i]);
        }
        lemma_total_merged_all(earlier);
        lemma_total_merged(merged_all(earlier), parts.last());
    }
}

} // verus!
