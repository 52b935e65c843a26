//! The mathematical model of a histogram: a finite map from categories to
//! tallies, and the operations that build one.

use vstd::prelude::*;

verus! {

/// What has been observed under one category.
pub struct Tally {
    /// How many lines.
    pub count: nat,
    /// How many bytes these lines held together.
    pub bytes: nat,
}

/// One classified line: its category and its length in bytes.
pub struct Observation {
    pub category: Seq<char>,
    pub bytes: nat,
}

/// A histogram as a mathematical map.
pub type Tallies = Map<Seq<char>, Tally>;

/// The tally of nothing.
pub open spec fn zero() -> Tally {
    Tally { count: 0, bytes: 0 }
}

/// The sum of two tallies.
pub open spec fn plus(a: Tally, b: Tally) -> Tally {
    Tally { count: a.count + b.count, bytes: a.bytes + b.bytes }
}

/// The tally under `category`; zero where the map has no entry for it.
pub open spec fn tally_at(m: Tallies, category: Seq<char>) -> Tally {
    if m.contains_key(category) {
        m[category]
    } else {
        zero()
    }
}

/// The map after `extra` has been added to the tally under `category`.
pub open spec fn added(m: Tallies, category: Seq<char>, extra: Tally) -> Tallies {
    m.insert(category, plus(tally_at(m, category), extra))
}

/// The map after one line of `bytes` bytes has been recorded under `category`.
pub open spec fn recorded(m: Tallies, category: Seq<char>, bytes: nat) -> Tallies {
    added(m, category, Tally { count: 1, bytes })
}

/// The entry-wise sum of two maps.
pub open spec fn merged(a: Tallies, b: Tallies) -> Tallies {
    Map::new(
        |category: Seq<char>| a.contains_key(category) || b.contains_key(category),
        |category: Seq<char>| plus(tally_at(a, category), tally_at(b, category)),
    )
}

/// The entry-wise sum of any number of maps.
pub open spec fn merged_all(parts: Seq<Tallies>) -> Tallies
    decreases parts.len(),
{
    if parts.len() == 0 {
        Map::empty()
    } else {
        merged(merged_all(parts.drop_last()), parts.last())
    }
}

/// The map that recording the observations one after the other gives.
pub open spec fn tallied(observations: Seq<Observation>) -> Tallies
    decreases observations.len(),
{
    if observations.len() == 0 {
        Map::empty()
    } else {
        recorded(
            tallied(observations.drop_last()),
            observations.last().category,
            observations.last().bytes,
        )
    }
}

/// The bytes of all the observations together.
pub open spec fn bytes_observed(observations: Seq<Observation>) -> nat
    decreases observations.len(),
{
    if observations.len() == 0 {
        0
    } else {
        bytes_observed(observations.drop_last()) + observations.last().bytes
    }
}

/// The sum of all the tallies of a finite map.
pub open spec fn total(m: Tallies) -> Tally
    decreases m.dom().len(),
{
    if m.dom().finite() && m.dom().len() > 0 {
        let category = m.dom().choose();
        plus(m[category], total(m.remove(category)))
    } else {
        zero()
    }
}

/// The sum of the totals of any number of maps.
pub open spec fn total_all(parts: Seq<Tallies>) -> Tally
    decreases parts.len(),
{
    if parts.len() == 0 {
        zero()
    } else {
        plus(total_all(parts.drop_last()), total(parts.last()))
    }
}

/// Whether `usize` holds both numbers of a tally.
pub open spec fn fits(tally: Tally) -> bool {
    tally.count <= usize::MAX && tally.bytes <= usize::MAX
}

/// The total does not depend on which entry is taken out first.
pub proof fn lemma_total_remove(m: Tallies, category: Seq<char>)
    requires
        m.dom().finite(),
        m.contains_key(category),
    ensures
        total(m) == plus(m[category], total(m.remove(category))),
    decreases m.dom().len(),
{
    let first = m.dom().choose();
    if first != category {
        let rest = m.remove(first);
        lemma_total_remove(rest, category);
        lemma_total_remove(m.remove(category), first);
        assert(rest.remove(category) =~= m.remove(category).remove(first));
    }
}

/// Adding to one entry adds as much to the total.
pub proof fn lemma_total_added(m: Tallies, category: Seq<char>, extra: Tally)
    requires
        m.dom().finite(),
    ensures
        added(m, category, extra).dom().finite(),
        total(added(m, category, extra)) == plus(total(m), extra),
{
    let after = added(m, category, extra);
    lemma_total_remove(after, category);
    assert(after.remove(category) =~= m.remove(category));
    if m.contains_key(category) {
        lemma_total_remove(m, category);
    } else {
        assert(m.remove(category) =~= m);
    }
}

/// No entry exceeds the total.
pub proof fn lemma_tally_within_total(m: Tallies, category: Seq<char>)
    requires
        m.dom().finite(),
    ensures
        tally_at(m, category).count <= total(m).count,
        tally_at(m, category).bytes <= total(m).bytes,
{
    if m.contains_key(category) {
        lemma_total_remove(m, category);
    }
}

} // verus!
