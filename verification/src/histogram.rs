//! The aggregator: an executable histogram over the model of `tally`.

use vstd::prelude::*;
use crate::tally::{
    added, fits, merged, merged_all, plus, recorded, total, total_all, Tallies, Tally,
};
use crate::tally::{lemma_tally_within_total, lemma_total_added};
use crate::laws::{lemma_merged_added, lemma_total_merged_all};

verus! {

/// All observations for one category.
#[derive(Clone, Copy, Debug, PartialEq, Eq, Structural)]
pub struct HistogramEntry {
    /// How many lines fell under the category.
    pub count: usize,
    /// How many bytes these lines held together.
    pub bytes: usize,
}

impl View for HistogramEntry {
    type V = Tally;

    open spec fn view(&self) -> Tally {
        Tally { count: self.count as nat, bytes: self.bytes as nat }
    }
}

/// One entry of a histogram together with its category.
#[derive(Clone, Debug, PartialEq, Eq)]
pub struct Row {
    pub category: String,
    pub count: usize,
    pub bytes: usize,
}

impl Row {
    /// The tally that the row carries.
    pub open spec fn tally(self) -> Tally {
        Tally { count: self.count as nat, bytes: self.bytes as nat }
    }
}

/// No two rows have the same category.
pub open spec fn distinct(rows: Seq<Row>) -> bool {
    forall|i: int, j: int| 0 <= i < j < rows.len() ==> rows[i].category@ != rows[j].category@
}

/// Some row has the category.
pub open spec fn has_row(rows: Seq<Row>, category: Seq<char>) -> bool {
    exists|i: int| 0 <= i < rows.len() && #[trigger] rows[i].category@ == category
}

/// The place of a row with the category.
pub open spec fn row_of(rows: Seq<Row>, category: Seq<char>) -> int {
    choose|i: int| 0 <= i < rows.len() && #[trigger] rows[i].category@ == category
}

/// The map that the rows list.
pub open spec fn rows_map(rows: Seq<Row>) -> Tallies {
    Map::new(
        |category: Seq<char>| has_row(rows, category),
        |category: Seq<char>| rows[row_of(rows, category)].tally(),
    )
}

/// Each row of a list without repeated categories is an entry of its map.
pub proof fn lemma_rows_map_at(rows: Seq<Row>, i: int)
    requires
        distinct(rows),
        0 <= i < rows.len(),
    ensures
        rows_map(rows).contains_key(rows[i].category@),
        rows_map(rows)[rows[i].category@] == rows[i].tally(),
{
    let category = rows[i].category@;
    assert(has_row(rows, category));
    let j = row_of(rows, category);
    assert(j == i);
}

/// A row with a new category adds an entry to the map.
pub proof fn lemma_rows_map_push(rows: Seq<Row>, row: Row)
    requires
        distinct(rows),
        !has_row(rows, row.category@),
    ensures
        distinct(rows.push(row)),
        rows_map(rows.push(row)) == rows_map(rows).insert(row.category@, row.tally()),
{
    let longer = rows.push(row);
    assert forall|i: int, j: int| 0 <= i < j < longer.len() implies longer[i].category@
        != longer[j].category@ by {
        if j == rows.len() {
            assert(rows[i].category@ != row.category@);
        }
    }
    assert forall|category: Seq<char>| has_row(longer, category) <==> (has_row(rows, category)
        || category == row.category@) by {
        if has_row(longer, category) {
            let i = row_of(longer, category);
            if i < rows.len() {
                assert(rows[i].category@ == category);
            }
        }
        if has_row(rows, category) {
            let i = row_of(rows, category);
            assert(longer[i].category@ == category);
        }
        if category == row.category@ {
            assert(longer[rows.len() as int].category@ == category);
        }
    }
    assert forall|category: Seq<char>| has_row(longer, category) implies #[trigger] rows_map(
        longer,
    )[category] == rows_map(rows).insert(row.category@, row.tally())[category] by {
        let i = row_of(longer, category);
        lemma_rows_map_at(longer, i);
        if i < rows.len() {
            assert(rows[i].category@ == category);
            lemma_rows_map_at(rows, i);
        }
    }
    assert(rows_map(longer) =~= rows_map(rows).insert(row.category@, row.tally()));
}

/// Replacing the numbers of one row replaces the entry in the map.
pub proof fn lemma_rows_map_update(rows: Seq<Row>, i: int, row: Row)
    requires
        distinct(rows),
        0 <= i < rows.len(),
        row.category@ == rows[i].category@,
    ensures
        distinct(rows.update(i, row)),
        rows_map(rows.update(i, row)) == rows_map(rows).insert(row.category@, row.tally()),
{
    let changed = rows.update(i, row);
    assert forall|a: int, b: int| 0 <= a < b < changed.len() implies changed[a].category@
        != changed[b].category@ by {
        assert(rows[a].category@ != rows[b].category@);
    }
    assert forall|category: Seq<char>| has_row(changed, category) <==> has_row(
        rows,
        category,
    ) by {
        if has_row(changed, category) {
            let j = row_of(changed, category);
            assert(rows[j].category@ == category);
        }
        if has_row(rows, category) {
            let j = row_of(rows, category);
            assert(changed[j].category@ == category);
        }
    }
    lemma_rows_map_at(rows, i);
    assert forall|category: Seq<char>| has_row(changed, category) implies #[trigger] rows_map(
        changed,
    )[category] == rows_map(rows).insert(row.category@, row.tally())[category] by {
        let j = row_of(changed, category);
        lemma_rows_map_at(changed, j);
        if j != i {
            assert(rows[j].category@ == category);
            lemma_rows_map_at(rows, j);
        }
    }
    assert(rows_map(changed) =~= rows_map(rows).insert(row.category@, row.tally()));
}

/// A list without repeated categories has as many rows as its map has
/// entries.
pub proof fn lemma_rows_map_len(rows: Seq<Row>)
    requires
        distinct(rows),
    ensures
        rows_map(rows).dom().finite(),
        rows_map(rows).dom().len() == rows.len(),
    decreases rows.len(),
{
    if rows.len() == 0 {
        assert(rows_map(rows).dom() =~= Set::empty());
    } else {
        let earlier = rows.drop_last();
        let last = rows.last();
        assert(distinct(earlier)) by {
            assert forall|i: int, j: int| 0 <= i < j < earlier.len() implies earlier[i].category@
                != earlier[j].category@ by {
                assert(rows[i].category@ != rows[j].category@);
            }
        }
        assert(!has_row(earlier, last.category@)) by {
            if has_row(earlier, last.category@) {
                let i = row_of(earlier, last.category@);
                assert(rows[i].category@ != rows[rows.len() - 1].category@);
            }
        }
        lemma_rows_map_len(earlier);
        lemma_rows_map_push(earlier, last);
        assert(rows =~= earlier.push(last));
        assert(!rows_map(earlier).dom().contains(last.category@));
    }
}

/// The rows list the map: each entry stands in exactly one row.
pub open spec fn lists(rows: Seq<Row>, m: Tallies) -> bool {
    distinct(rows) && rows_map(rows) == m
}

/// The first rows of a list, taken alone: the next row adds its tally to
/// their total, which never exceeds the total of the whole list.
proof fn lemma_rows_prefix(rows: Seq<Row>, n: int)
    requires
        distinct(rows),
        0 <= n <= rows.len(),
    ensures
        distinct(rows.take(n)),
        rows_map(rows.take(n)).dom().finite(),
        total(rows_map(rows.take(n))).count <= total(rows_map(rows)).count,
        total(rows_map(rows.take(n))).bytes <= total(rows_map(rows)).bytes,
        n < rows.len() ==> !has_row(rows.take(n), rows[n].category@),
        n < rows.len() ==> rows_map(rows.take(n + 1)) == rows_map(rows.take(n)).insert(
            rows[n].category@,
            rows[n].tally(),
        ),
    decreases rows.len() - n,
{
    let first = rows.take(n);
    assert(distinct(first)) by {
        assert forall|i: int, j: int| 0 <= i < j < first.len() implies first[i].category@
            != first[j].category@ by {
            assert(rows[i].category@ != rows[j].category@);
        }
    }
    lemma_rows_map_len(first);
    if n == rows.len() {
        assert(first =~= rows);
    } else {
        assert(!has_row(first, rows[n].category@)) by {
            if has_row(first, rows[n].category@) {
                let i = row_of(first, rows[n].category@);
                assert(rows[i].category@ != rows[n].category@);
            }
        }
        lemma_rows_map_push(first, rows[n]);
        assert(rows.take(n + 1) =~= first.push(rows[n]));
        lemma_total_added(rows_map(first), rows[n].category@, rows[n].tally());
        assert(added(rows_map(first), rows[n].category@, rows[n].tally()) =~= rows_map(
            first,
        ).insert(rows[n].category@, rows[n].tally()));
        lemma_rows_prefix(rows, n + 1);
    }
}

/// A histogram: for each category seen, how many lines fell under it and how
/// many bytes they held. It never counts more lines or bytes than `usize`
/// holds.
pub struct Histogram {
    rows: Vec<Row>,
    lines: usize,
    bytes: usize,
}

/// Where a row with the category stands among the rows, if one does.
fn position(rows: &Vec<Row>, category: &String) -> (place: Option<usize>)
    ensures
        match place {
            Some(i) => i < rows.len() && rows[i as int].category@ == category@,
            None => !has_row(rows@, category@),
        },
{
    let mut i: usize = 0;
    while i < rows.len()
        invariant
            i <= rows.len(),
            forall|j: int| 0 <= j < i ==> rows[j].category@ != category@,
        decreases rows.len() - i,
    {
        if rows[i].category == *category {
            return Some(i);
        }
        i += 1;
    }
    None
}

impl View for Histogram {
    type V = Tallies;

    closed spec fn view(&self) -> Tallies {
        rows_map(self.rows@)
    }
}

impl Histogram {
    #[verifier::type_invariant]
    spec fn well_formed(self) -> bool {
        &&& distinct(self.rows@)
        &&& total(rows_map(self.rows@)) == Tally {
            count: self.lines as nat,
            bytes: self.bytes as nat,
        }
    }

    /// Whether `extra` can be added to a histogram that holds `m`: the lines
    /// and the bytes counted stay within `usize`.
    pub open spec fn has_room(m: Tallies, extra: Tally) -> bool {
        &&& total(m).count + extra.count <= usize::MAX
        &&& total(m).bytes + extra.bytes <= usize::MAX
    }

    /// The histogram of no lines.
    pub fn new() -> (h: Histogram)
        ensures
            h@ == Map::<Seq<char>, Tally>::empty(),
    {
        let rows: Vec<Row> = Vec::new();
        proof {
            assert(rows_map(rows@) =~= Map::<Seq<char>, Tally>::empty());
        }
        Histogram { rows, lines: 0, bytes: 0 }
    }

    /// Whether `count` more lines of `bytes` bytes together can be added.
    pub fn room_for(&self, count: usize, bytes: usize) -> (room: bool)
        ensures
            room == Self::has_room(self@, Tally { count: count as nat, bytes: bytes as nat }),
    {
        proof {
            use_type_invariant(self);
        }
        count <= usize::MAX - self.lines && bytes <= usize::MAX - self.bytes
    }

    /// Adds `count` lines of `bytes` bytes together to the entry of
    /// `category`, which is made if there is none yet.
    pub fn add(&mut self, category: String, count: usize, bytes: usize)
        requires
            Self::has_room(old(self)@, Tally { count: count as nat, bytes: bytes as nat }),
        ensures
            final(self)@ == added(
                old(self)@,
                category@,
                Tally { count: count as nat, bytes: bytes as nat },
            ),
    {
        proof {
            use_type_invariant(&*self);
            lemma_rows_map_len(self.rows@);
            lemma_tally_within_total(self@, category@);
            lemma_total_added(
                self@,
                category@,
                Tally { count: count as nat, bytes: bytes as nat },
            );
        }
        let mut taken = Histogram::new();
        std::mem::swap(self, &mut taken);
        let Histogram { rows: mut rows, lines, bytes: held } = taken;
        let ghost before = rows@;
        match position(&rows, &category) {
            Some(i) => {
                proof {
                    lemma_rows_map_at(before, i as int);
                }
                let row = Row {
                    category,
                    count: rows[i].count + count,
                    bytes: rows[i].bytes + bytes,
                };
                proof {
                    lemma_rows_map_update(before, i as int, row);
                }
                rows[i] = row;
                assert(rows@ =~= before.update(i as int, row));
            },
            None => {
                let row = Row { category, count, bytes };
                proof {
                    lemma_rows_map_push(before, row);
                }
                rows.push(row);
            },
        }
        *self = Histogram { rows, lines: lines + count, bytes: held + bytes };
    }

    /// Records one line of `bytes` bytes under `category`.
    pub fn record(&mut self, category: String, bytes: usize)
        requires
            Self::has_room(old(self)@, Tally { count: 1, bytes: bytes as nat }),
        ensures
            final(self)@ == recorded(old(self)@, category@, bytes as nat),
    {
        self.add(category, 1, bytes);
    }

    /// Adds every entry of `other` to this histogram.
    pub fn merge(&mut self, other: &Histogram)
        requires
            Self::has_room(old(self)@, total(other@)),
        ensures
            final(self)@ == merged(old(self)@, other@),
    {
        let ghost start = self@;
        proof {
            use_type_invariant(&*self);
            use_type_invariant(other);
            lemma_rows_map_len(self.rows@);
            lemma_rows_prefix(other.rows@, 0);
            assert(rows_map(other.rows@.take(0)) =~= Map::<Seq<char>, Tally>::empty());
            assert(merged(start, Map::<Seq<char>, Tally>::empty()) =~= start);
        }
        let mut n: usize = 0;
        while n < other.rows.len()
            invariant
                n <= other.rows.len(),
                distinct(other.rows@),
                Self::has_room(start, total(rows_map(other.rows@))),
                self@.dom().finite(),
                self@ == merged(start, rows_map(other.rows@.take(n as int))),
                total(self@) == plus(total(start), total(rows_map(other.rows@.take(n as int)))),
            decreases other.rows.len() - n,
        {
            let row = &other.rows[n];
            proof {
                let seen = rows_map(other.rows@.take(n as int));
                lemma_rows_prefix(other.rows@, n as int);
                lemma_rows_prefix(other.rows@, n + 1);
                lemma_total_added(seen, row.category@, row.tally());
                lemma_total_added(self@, row.category@, row.tally());
                lemma_merged_added(start, seen, row.category@, row.tally());
                assert(added(seen, row.category@, row.tally()) =~= seen.insert(
                    row.category@,
                    row.tally(),
                ));
            }
            self.add(row.category.clone(), row.count, row.bytes);
            n += 1;
        }
        proof {
            assert(other.rows@.take(n as int) =~= other.rows@);
        }
    }

    /// The entry of `category`, if any line fell under it.
    pub fn get(&self, category: &str) -> (entry: Option<HistogramEntry>)
        ensures
            match entry {
                Some(e) => self@.contains_key(category@) && e@ == self@[category@],
                None => !self@.contains_key(category@),
            },
    {
        proof {
            use_type_invariant(self);
        }
        let wanted = category.to_owned();
        match position(&self.rows, &wanted) {
            Some(i) => {
                proof {
                    lemma_rows_map_at(self.rows@, i as int);
                }
                Some(HistogramEntry { count: self.rows[i].count, bytes: self.rows[i].bytes })
            },
            None => None,
        }
    }

    /// How many categories the histogram holds.
    pub fn len(&self) -> (n: usize)
        ensures
            self@.dom().finite(),
            n == self@.dom().len(),
    {
        proof {
            use_type_invariant(self);
            lemma_rows_map_len(self.rows@);
        }
        self.rows.len()
    }

    /// Whether no line has been recorded.
    pub fn is_empty(&self) -> (empty: bool)
        ensures
            empty == (self@ == Map::<Seq<char>, Tally>::empty()),
    {
        proof {
            use_type_invariant(self);
            lemma_rows_map_len(self.rows@);
            if self.rows@.len() == 0 {
                assert(self@ =~= Map::<Seq<char>, Tally>::empty());
            }
        }
        self.rows.len() == 0
    }

    /// How many lines the histogram counts, all categories together.
    pub fn total_count(&self) -> (lines: usize)
        ensures
            self@.dom().finite(),
            lines == total(self@).count,
    {
        proof {
            use_type_invariant(self);
            lemma_rows_map_len(self.rows@);
        }
        self.lines
    }

    /// How many bytes the histogram counts, all categories together.
    pub fn total_bytes(&self) -> (bytes: usize)
        ensures
            self@.dom().finite(),
            bytes == total(self@).bytes,
    {
        proof {
            use_type_invariant(self);
            lemma_rows_map_len(self.rows@);
        }
        self.bytes
    }

    /// The entries of the histogram, in no particular order.
    pub fn entries(&self) -> (rows: Vec<Row>)
        ensures
            lists(rows@, self@),
    {
        proof {
            use_type_invariant(self);
        }
        let mut rows: Vec<Row> = Vec::new();
        let mut n: usize = 0;
        while n < self.rows.len()
            invariant
                n <= self.rows.len(),
                rows@ == self.rows@.take(n as int),
            decreases self.rows.len() - n,
        {
            let row = &self.rows[n];
            rows.push(Row { category: row.category.clone(), count: row.count, bytes: row.bytes });
            assert(rows@ =~= self.rows@.take(n + 1));
            n += 1;
        }
        assert(rows@ =~= self.rows@);
        rows
    }
}

/// The maps of some histograms, in their order.
pub open spec fn views(parts: Seq<Histogram>) -> Seq<Tallies> {
    Seq::new(parts.len(), |i: int| parts[i]@)
}

/// The entry-wise sum of the partial histograms, where `usize` can count
/// the lines and the bytes of all of them together, and `None` where it
/// cannot.
pub fn try_merge_all(parts: &[Histogram]) -> (outcome: Option<Histogram>)
    ensures
        match outcome {
            Some(whole) => {
                &&& fits(total(merged_all(views(parts@))))
                &&& whole@ == merged_all(views(parts@))
            },
            None => !fits(total(merged_all(views(parts@)))),
        },
{
    let mut lines: usize = 0;
    let mut bytes: usize = 0;
    let mut n: usize = 0;
    let mut room = true;
    while n < parts.len()
        invariant
            n <= parts.len(),
            forall|i: int| 0 <= i < n ==> (#[trigger] parts[i])@.dom().finite(),
            room ==> total_all(views(parts@.take(n as int))) == (Tally {
                count: lines as nat,
                bytes: bytes as nat,
            }),
            !room ==> !fits(total_all(views(parts@.take(n as int)))),
        decreases parts.len() - n,
    {
        let more_lines = parts[n].total_count();
        let more_bytes = parts[n].total_bytes();
        proof {
            let longer = views(parts@.take(n + 1));
            assert(longer.drop_last() =~= views(parts@.take(n as int)));
            assert(longer.last() == parts[n as int]@);
        }
        if room && more_lines <= usize::MAX - lines && more_bytes <= usize::MAX - bytes {
            lines = lines + more_lines;
            bytes = bytes + more_bytes;
        } else {
            room = false;
        }
        n += 1;
    }
    proof {
        assert(parts@.take(n as int) =~= parts@);
        assert forall|i: int| 0 <= i < views(parts@).len() implies (#[trigger] views(
            parts@,
        )[i]).dom().finite() by {
            assert(parts[i]@.dom().finite());
        }
        lemma_total_merged_all(views(parts@));
    }
    if !room {
        return None;
    }
    let mut whole = Histogram::new();
    let mut n: usize = 0;
    assert(views(parts@.take(0)) =~= Seq::<Tallies>::empty());
    while n < parts.len()
        invariant
            n <= parts.len(),
            forall|i: int| 0 <= i < parts.len() ==> (#[trigger] parts[i])@.dom().finite(),
            fits(total_all(views(parts@))),
            whole@ == merged_all(views(parts@.take(n as int))),
        decreases parts.len() - n,
    {
        proof {
            let seen = views(parts@.take(n as int));
            let longer = views(parts@.take(n + 1));
            assert(longer.drop_last() =~= seen);
            assert(longer.last() == parts[n as int]@);
            assert forall|i: int| 0 <= i < seen.len() implies (#[trigger] seen[i]).dom().finite() by {
                assert(parts[i]@.dom().finite());
            }
            lemma_total_merged_all(seen);
            lemma_total_all_prefix(views(parts@), n as int);
            assert(views(parts@).take(n as int) =~= seen);
            assert(views(parts@)[n as int] == parts[n as int]@);
        }
        whole.merge(&parts[n]);
        n += 1;
    }
    proof {
        assert(parts@.take(n as int) =~= parts@);
    }
    Some(whole)
}

/// The entry-wise sum of the partial histograms.
pub fn merge_all(parts: &[Histogram]) -> (whole: Histogram)
    requires
        fits(total(merged_all(views(parts@)))),
    ensures
        whole@ == merged_all(views(parts@)),
{
    match try_merge_all(parts) {
        Some(whole) => whole,
        None => unreached(),
    }
}

/// The totals of the first maps, and of one more, stay within the totals of
/// all.
proof fn lemma_total_all_prefix(parts: Seq<Tallies>, n: int)
    requires
        0 <= n < parts.len(),
    ensures
        total_all(parts.take(n)).count + total(parts[n]).count <= total_all(parts).count,
        total_all(parts.take(n)).bytes + total(parts[n]).bytes <= total_all(parts).bytes,
    decreases parts.len(),
{
    if n == parts.len() - 1 {
        assert(parts.take(n) =~= parts.drop_last());
    } else {
        lemma_total_all_prefix(parts.drop_last(), n);
        assert(parts.drop_last().take(n) =~= parts.take(n));
    }
}

} // verus!
