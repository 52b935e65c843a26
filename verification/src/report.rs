//! The result materializer: the entries of a histogram in the order of their
//! categories.

use vstd::prelude::*;
use vstd::seq_lib::*;
use vstd::utf8::*;
use crate::histogram::{distinct, has_row, lemma_rows_map_at, lists, row_of, rows_map, Histogram, Row};

verus! {

/// The lexicographic order of byte strings: the first byte that differs
/// decides, and a proper prefix comes first.
pub open spec fn lex_less(a: Seq<u8>, b: Seq<u8>) -> bool
    decreases a.len(),
{
    if b.len() == 0 {
        false
    } else if a.len() == 0 {
        true
    } else if a[0] != b[0] {
        a[0] < b[0]
    } else {
        lex_less(a.drop_first(), b.drop_first())
    }
}

/// The order of categories: that of their UTF-8 bytes, which is the order
/// of `str`.
pub open spec fn precedes(a: Seq<char>, b: Seq<char>) -> bool {
    lex_less(encode_utf8(a), encode_utf8(b))
}

/// Each row's category precedes that of every later row.
pub open spec fn ascending(rows: Seq<Row>) -> bool {
    forall|i: int, j: int|
        0 <= i < j < rows.len() ==> precedes(
            #[trigger] rows[i].category@,
            #[trigger] rows[j].category@,
        )
}

/// Nothing comes before itself.
pub proof fn lemma_lex_less_irreflexive(a: Seq<u8>)
    ensures
        !lex_less(a, a),
    decreases a.len(),
{
    if a.len() > 0 {
        lemma_lex_less_irreflexive(a.drop_first());
    }
}

/// The order is transitive.
pub proof fn lemma_lex_less_transitive(a: Seq<u8>, b: Seq<u8>, c: Seq<u8>)
    requires
        lex_less(a, b),
        lex_less(b, c),
    ensures
        lex_less(a, c),
    decreases a.len(),
{
    if a.len() > 0 && a[0] == b[0] && b[0] == c[0] {
        lemma_lex_less_transitive(a.drop_first(), b.drop_first(), c.drop_first());
    }
}

/// Of two different byte strings one comes before the other.
pub proof fn lemma_lex_less_connected(a: Seq<u8>, b: Seq<u8>)
    requires
        a != b,
    ensures
        lex_less(a, b) || lex_less(b, a),
    decreases a.len(),
{
    if a.len() > 0 && b.len() > 0 && a[0] == b[0] {
        if a.drop_first() == b.drop_first() {
            assert(a =~= seq![a[0]] + a.drop_first());
            assert(b =~= seq![b[0]] + b.drop_first());
        }
        lemma_lex_less_connected(a.drop_first(), b.drop_first());
    } else if a.len() == 0 && b.len() == 0 {
        assert(a =~= b);
    }
}

/// Of two different categories one precedes the other.
pub proof fn lemma_precedes_connected(a: Seq<char>, b: Seq<char>)
    requires
        a != b,
    ensures
        precedes(a, b) || precedes(b, a),
{
    encode_utf8_decode_utf8(a);
    encode_utf8_decode_utf8(b);
    lemma_lex_less_connected(encode_utf8(a), encode_utf8(b));
}

/// Rows in ascending order hold no category twice.
pub proof fn lemma_ascending_distinct(rows: Seq<Row>)
    requires
        ascending(rows),
    ensures
        distinct(rows),
{
    assert forall|i: int, j: int| 0 <= i < j < rows.len() implies rows[i].category@
        != rows[j].category@ by {
        assert(precedes(rows[i].category@, rows[j].category@));
        lemma_lex_less_irreflexive(encode_utf8(rows[i].category@));
    }
}

/// Two lists of the same rows, each without repeated categories, list the
/// same map.
pub proof fn lemma_same_rows_same_map(a: Seq<Row>, b: Seq<Row>)
    requires
        distinct(a),
        distinct(b),
        a.to_multiset() == b.to_multiset(),
    ensures
        rows_map(a) == rows_map(b),
{
    lemma_rows_within(a, b);
    lemma_rows_within(b, a);
    assert(rows_map(a) =~= rows_map(b));
}

/// Every entry of the first list's map is an entry of the second's.
proof fn lemma_rows_within(a: Seq<Row>, b: Seq<Row>)
    requires
        distinct(a),
        distinct(b),
        a.to_multiset() == b.to_multiset(),
    ensures
        forall|category: Seq<char>| #[trigger]
            rows_map(a).contains_key(category) ==> rows_map(b).contains_key(category)
                && rows_map(b)[category] == rows_map(a)[category],
{
    assert forall|category: Seq<char>| #[trigger]
        rows_map(a).contains_key(category) implies rows_map(b).contains_key(category)
        && rows_map(b)[category] == rows_map(a)[category] by {
        let i = row_of(a, category);
        lemma_rows_map_at(a, i);
        to_multiset_contains(a, a[i]);
        to_multiset_contains(b, a[i]);
        assert(a.contains(a[i]));
        let j = choose|j: int| 0 <= j < b.len() && b[j] == a[i];
        lemma_rows_map_at(b, j);
    }
}

/// Whether the bytes `a` come before the bytes `b`.
fn bytes_less(a: &[u8], b: &[u8]) -> (less: bool)
    ensures
        less == lex_less(a@, b@),
{
    let mut i: usize = 0;
    assert(a@.skip(0) =~= a@ && b@.skip(0) =~= b@);
    while i < a.len() && i < b.len()
        invariant
            i <= a.len(),
            i <= b.len(),
            lex_less(a@, b@) == lex_less(a@.skip(i as int), b@.skip(i as int)),
        decreases a.len() - i,
    {
        proof {
            assert(a@.skip(i as int).drop_first() =~= a@.skip(i + 1));
            assert(b@.skip(i as int).drop_first() =~= b@.skip(i + 1));
        }
        if a[i] != b[i] {
            return a[i] < b[i];
        }
        i += 1;
    }
    a.len() < b.len()
}

/// Whether the category `a` is listed before the category `b`.
pub fn comes_before(a: &str, b: &str) -> (before: bool)
    ensures
        before == precedes(a@, b@),
{
    bytes_less(a.as_bytes(), b.as_bytes())
}

/// Puts rows of different categories in ascending order.
fn sort_rows(rows: Vec<Row>) -> (sorted: Vec<Row>)
    requires
        distinct(rows@),
    ensures
        ascending(sorted@),
        sorted@.to_multiset() == rows@.to_multiset(),
{
    broadcast use group_to_multiset_ensures;

    let ghost all = rows@;
    let mut rest = rows;
    let mut sorted: Vec<Row> = Vec::new();
    assert(sorted@.to_multiset().add(rest@.to_multiset()) =~= all.to_multiset());
    while rest.len() > 0
        invariant
            distinct(rest@),
            ascending(sorted@),
            forall|i: int, j: int|
                0 <= i < rest.len() && 0 <= j < sorted.len() ==> rest[i].category@
                    != sorted[j].category@,
            sorted@.to_multiset().add(rest@.to_multiset()) == all.to_multiset(),
        decreases rest.len(),
    {
        let ghost before = rest@;
        let ghost placed = sorted@;
        let row = rest.pop().unwrap();
        assert(before =~= rest@.push(row));
        let mut place: usize = 0;
        while place < sorted.len() && !comes_before(
            row.category.as_str(),
            sorted[place].category.as_str(),
        )
            invariant
                place <= sorted.len(),
                sorted@ == placed,
                forall|j: int| 0 <= j < sorted.len() ==> row.category@ != sorted[j].category@,
                forall|j: int| 0 <= j < place ==> precedes(sorted[j].category@, row.category@),
            decreases sorted.len() - place,
        {
            proof {
                lemma_precedes_connected(row.category@, sorted[place as int].category@);
            }
            place += 1;
        }
        sorted.insert(place, row);
        proof {
            let grown = sorted@;
            assert forall|i: int, j: int| 0 <= i < j < grown.len() implies precedes(
                #[trigger] grown[i].category@,
                #[trigger] grown[j].category@,
            ) by {
                if j == place {
                    assert(grown[i] == placed[i]);
                } else if i == place {
                    assert(grown[j] == placed[j - 1]);
                    if j - 1 > place {
                        assert(precedes(placed[place as int].category@, placed[j - 1].category@));
                        lemma_lex_less_transitive(
                            encode_utf8(row.category@),
                            encode_utf8(placed[place as int].category@),
                            encode_utf8(placed[j - 1].category@),
                        );
                    }
                } else if j < place {
                    assert(grown[i] == placed[i] && grown[j] == placed[j]);
                } else if i < place {
                    assert(grown[i] == placed[i] && grown[j] == placed[j - 1]);
                } else {
                    assert(grown[i] == placed[i - 1] && grown[j] == placed[j - 1]);
                }
            }
            assert forall|i: int, j: int|
                0 <= i < rest.len() && 0 <= j < grown.len() implies rest[i].category@
                != grown[j].category@ by {
                assert(rest[i] == before[i]);
                if j == place {
                    assert(before[i].category@ != before[before.len() - 1].category@);
                } else if j < place {
                    assert(grown[j] == placed[j]);
                } else {
                    assert(grown[j] == placed[j - 1]);
                }
            }
            assert(distinct(rest@)) by {
                assert forall|i: int, j: int| 0 <= i < j < rest.len() implies rest[i].category@
                    != rest[j].category@ by {
                    assert(before[i].category@ != before[j].category@);
                }
            }
            assert(grown =~= placed.insert(place as int, row));
            to_multiset_insert(placed, place as int, row);
            to_multiset_build(rest@, row);
            assert(grown.to_multiset().add(rest@.to_multiset()) =~= placed.to_multiset().add(
                before.to_multiset(),
            ));
        }
    }
    assert(sorted@.to_multiset().add(rest@.to_multiset()) =~= sorted@.to_multiset());
    sorted
}

/// The entries of a histogram, sorted by category in ascending order.
pub fn materialize(histogram: &Histogram) -> (rows: Vec<Row>)
    ensures
        ascending(rows@),
        lists(rows@, histogram@),
{
    let entries = histogram.entries();
    let rows = sort_rows(entries);
    proof {
        lemma_ascending_distinct(rows@);
        lemma_same_rows_same_map(rows@, entries@);
    }
    rows
}

} // verus!
