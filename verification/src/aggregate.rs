//! Aggregation: the histogram of a run of lines, as one worker builds it, and
//! what holds when the lines are dealt out to several.

use vstd::prelude::*;
use vstd::seq_lib::*;
use crate::classify::{classify, line_category, TYPE_FIELD};
use crate::histogram::Histogram;
use crate::laws::{
    lemma_merged_tallies_concat, lemma_tallied_ignores_order, lemma_tallied_total,
};
use crate::line::RawLine;
use crate::tally::{
    bytes_observed, merged, merged_all, recorded, tallied, total, Observation, Tallies, Tally,
};

verus! {

/// What a line adds to a histogram.
pub open spec fn observation(line: RawLine) -> Observation {
    Observation { category: line_category(line, TYPE_FIELD@), bytes: line.byte_count() }
}

/// What the lines add to a histogram, line by line.
pub open spec fn observations(lines: Seq<RawLine>) -> Seq<Observation> {
    Seq::new(lines.len(), |i: int| observation(lines[i]))
}

/// The bytes that the lines hold together.
pub open spec fn bytes_held(lines: Seq<RawLine>) -> nat
    decreases lines.len(),
{
    if lines.len() == 0 {
        0
    } else {
        bytes_held(lines.drop_last()) + lines.last().byte_count()
    }
}

/// The bytes observed are the bytes that the lines hold.
pub proof fn lemma_bytes_observed(lines: Seq<RawLine>)
    ensures
        bytes_observed(observations(lines)) == bytes_held(lines),
    decreases lines.len(),
{
    if lines.len() > 0 {
        lemma_bytes_observed(lines.drop_last());
        assert(observations(lines).drop_last() =~= observations(lines.drop_last()));
    }
}

/// The first lines hold no more bytes than all of them.
proof fn lemma_bytes_held_prefix(lines: Seq<RawLine>, n: int)
    requires
        0 <= n <= lines.len(),
    ensures
        bytes_held(lines.take(n)) <= bytes_held(lines),
        n < lines.len() ==> bytes_held(lines.take(n + 1)) == bytes_held(lines.take(n))
            + lines[n].byte_count(),
    decreases lines.len() - n,
{
    if n == lines.len() {
        assert(lines.take(n) =~= lines);
    } else {
        assert(lines.take(n + 1).drop_last() =~= lines.take(n));
        lemma_bytes_held_prefix(lines, n + 1);
    }
}

/// No line is lost and none is counted twice: the counts of the histogram
/// of some lines sum to the number of the lines, and its bytes to the bytes
/// they hold.
pub proof fn lemma_every_line_counted(lines: Seq<RawLine>)
    ensures
        total(tallied(observations(lines))).count == lines.len(),
        total(tallied(observations(lines))).bytes == bytes_held(lines),
{
    lemma_tallied_total(observations(lines));
    lemma_bytes_observed(lines);
}

/// The same lines in another order give the same observations in another
/// order.
proof fn lemma_observations_rearranged(a: Seq<RawLine>, b: Seq<RawLine>)
    requires
        a.to_multiset() == b.to_multiset(),
    ensures
        observations(a).to_multiset() == observations(b).to_multiset(),
    decreases a.len(),
{
    broadcast use group_to_multiset_ensures;

    if a.len() == 0 {
        to_multiset_len(a);
        to_multiset_len(b);
        assert(observations(a) =~= observations(b));
    } else {
        let last = a.last();
        let earlier = a.drop_last();
        assert(a =~= earlier.push(last));
        assert(b.to_multiset().count(last) > 0);
        let i = choose|i: int| 0 <= i < b.len() && b[i] == last;
        let without = b.remove(i);
        assert(earlier.to_multiset() =~= without.to_multiset());
        lemma_observations_rearranged(earlier, without);
        assert(observations(a) =~= observations(earlier).push(observation(last)));
        assert(observations(b).remove(i) =~= observations(without));
        to_multiset_remove(observations(b), i);
        to_multiset_contains(observations(b), observations(b)[i]);
        assert(observations(b).to_multiset() =~= observations(without).to_multiset().insert(
            observation(last),
        ));
    }
}

/// The histogram of some lines is the same in whatever order they are
/// processed.
pub proof fn lemma_order_is_immaterial(a: Seq<RawLine>, b: Seq<RawLine>)
    requires
        a.to_multiset() == b.to_multiset(),
    ensures
        tallied(observations(a)) == tallied(observations(b)),
{
    lemma_observations_rearranged(a, b);
    lemma_tallied_ignores_order(observations(a), observations(b));
}

/// However the lines of `whole` are divided into two parts, the histograms
/// of the parts, merged, are the histogram of the whole.
pub proof fn lemma_parts_make_whole(whole: Seq<RawLine>, a: Seq<RawLine>, b: Seq<RawLine>)
    requires
        whole.to_multiset() == a.to_multiset().add(b.to_multiset()),
    ensures
        merged(tallied(observations(a)), tallied(observations(b))) == tallied(
            observations(whole),
        ),
{
    lemma_multiset_commutative(a, b);
    lemma_order_is_immaterial(whole, a + b);
    assert(observations(a + b) =~= observations(a) + observations(b));
    lemma_merged_tallies_concat(observations(a), observations(b));
}

/// The lines of some shards, one shard after the other.
pub open spec fn joined(shards: Seq<Seq<RawLine>>) -> Seq<RawLine>
    decreases shards.len(),
{
    if shards.len() == 0 {
        Seq::empty()
    } else {
        joined(shards.drop_last()) + shards.last()
    }
}

/// The histogram of each shard, taken alone.
pub open spec fn shard_tallies(shards: Seq<Seq<RawLine>>) -> Seq<Tallies> {
    Seq::new(shards.len(), |i: int| tallied(observations(shards[i])))
}

/// However many workers there are, and however the lines of `whole` are
/// dealt out to them, a shard for each, the histograms of the shards,
/// merged, are the histogram of the whole, and count every line of it.
pub proof fn lemma_shards_make_whole(whole: Seq<RawLine>, shards: Seq<Seq<RawLine>>)
    requires
        whole.to_multiset() == joined(shards).to_multiset(),
    ensures
        merged_all(shard_tallies(shards)) == tallied(observations(whole)),
        total(merged_all(shard_tallies(shards))).count == whole.len(),
        total(merged_all(shard_tallies(shards))).bytes == bytes_held(whole),
{
    lemma_joined_shards(shards);
    lemma_order_is_immaterial(whole, joined(shards));
    lemma_every_line_counted(whole);
}

/// The histograms of the shards, merged, are the histogram of their lines
/// taken shard after shard.
proof fn lemma_joined_shards(shards: Seq<Seq<RawLine>>)
    ensures
        merged_all(shard_tallies(shards)) == tallied(observations(joined(shards))),
    decreases shards.len(),
{
    if shards.len() == 0 {
        assert(observations(joined(shards)) =~= Seq::<Observation>::empty());
    } else {
        let earlier = shards.drop_last();
        let last = shards.last();
        lemma_joined_shards(earlier);
        assert(shard_tallies(shards).drop_last() =~= shard_tallies(earlier));
        assert(observations(joined(earlier) + last) =~= observations(joined(earlier))
            + observations(last));
        lemma_merged_tallies_concat(observations(joined(earlier)), observations(last));
    }
}

/// Classifies one line and records it.
pub fn observe(histogram: &mut Histogram, line: &RawLine)
    requires
        Histogram::has_room(old(histogram)@, Tally { count: 1, bytes: line.byte_count() }),
    ensures
        final(histogram)@ == recorded(
            old(histogram)@,
            observation(*line).category,
            observation(*line).bytes,
        ),
{
    let category = classify(line);
    histogram.record(category, line.byte_len());
}

/// The histogram of the lines, where `usize` can count the bytes they hold
/// together, and `None` where it cannot.
pub fn try_aggregate(lines: &[RawLine]) -> (outcome: Option<Histogram>)
    ensures
        match outcome {
            Some(histogram) => {
                &&& bytes_held(lines@) <= usize::MAX
                &&& histogram@ == tallied(observations(lines@))
            },
            None => bytes_held(lines@) > usize::MAX,
        },
{
    let mut histogram = Histogram::new();
    let mut n: usize = 0;
    assert(observations(lines@.take(0)) =~= Seq::<Observation>::empty());
    while n < lines.len()
        invariant
            n <= lines.len(),
            bytes_held(lines@.take(n as int)) <= usize::MAX,
            histogram@ == tallied(observations(lines@.take(n as int))),
        decreases lines.len() - n,
    {
        proof {
            lemma_every_line_counted(lines@.take(n as int));
            lemma_bytes_held_prefix(lines@, n as int);
            lemma_bytes_held_prefix(lines@, n + 1);
            let longer = observations(lines@.take(n + 1));
            assert(longer.drop_last() =~= observations(lines@.take(n as int)));
            assert(longer.last() == observation(lines@[n as int]));
        }
        if !histogram.room_for(1, lines[n].byte_len()) {
            return None;
        }
        observe(&mut histogram, &lines[n]);
        n += 1;
    }
    proof {
        assert(lines@.take(n as int) =~= lines@);
        lemma_every_line_counted(lines@);
    }
    Some(histogram)
}

/// The histogram of the lines: each line is counted once, under its
/// category.
pub fn aggregate(lines: &[RawLine]) -> (histogram: Histogram)
    requires
        bytes_held(lines@) <= usize::MAX,
    ensures
        histogram@ == tallied(observations(lines@)),
        total(histogram@).count == lines.len(),
        total(histogram@).bytes == bytes_held(lines@),
{
    proof {
        lemma_every_line_counted(lines@);
    }
    match try_aggregate(lines) {
        Some(histogram) => histogram,
        None => unreached(),
    }
}

} // verus!
