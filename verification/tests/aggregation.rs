use jlh::aggregate::{aggregate, try_aggregate};
use jlh::histogram::{merge_all, Histogram, HistogramEntry, Row};
use jlh::line::RawLine;
use jlh::report::materialize;

fn lines_of(texts: &[&str]) -> Vec<RawLine> {
    texts.iter().map(|text| RawLine::Text(String::from(*text))).collect()
}

fn row(category: &str, count: usize, bytes: usize) -> Row {
    Row { category: String::from(category), count, bytes }
}

fn sum_of_counts(histogram: &Histogram) -> usize {
    materialize(histogram).iter().map(|row| row.count).sum()
}

#[test]
fn logins_and_logouts_are_counted_by_type() {
    let lines = lines_of(&["{\"type\":\"login\"}", "{\"type\":\"login\"}", "{\"type\":\"logout\"}"]);
    let histogram = aggregate(&lines);
    assert_eq!(histogram.len(), 2);
    assert_eq!(histogram.get("login"), Some(HistogramEntry { count: 2, bytes: 32 }));
    assert_eq!(histogram.get("logout"), Some(HistogramEntry { count: 1, bytes: 17 }));
    assert_eq!(materialize(&histogram), vec![row("login", 2, 32), row("logout", 1, 17)]);
}

#[test]
fn text_that_is_not_json_is_counted_as_invalid() {
    let histogram = aggregate(&lines_of(&["not json"]));
    assert_eq!(materialize(&histogram), vec![row("invalid-json", 1, 8)]);
}

#[test]
fn object_without_the_type_member_is_counted_as_missing() {
    let histogram = aggregate(&lines_of(&["{\"other\":1}"]));
    assert_eq!(materialize(&histogram), vec![row("missing-type", 1, 11)]);
}

#[test]
fn no_lines_give_the_empty_histogram() {
    let histogram = aggregate(&[]);
    assert!(histogram.is_empty());
    assert_eq!(histogram.len(), 0);
    assert_eq!(histogram.total_count(), 0);
    assert_eq!(histogram.total_bytes(), 0);
    assert_eq!(materialize(&histogram), Vec::<Row>::new());
}

#[test]
fn json_that_is_no_object_is_counted_as_such() {
    let histogram = aggregate(&lines_of(&["42"]));
    assert_eq!(materialize(&histogram), vec![row("non-json-object", 1, 2)]);
}

#[test]
fn unreadable_line_is_counted_with_its_bytes() {
    let lines = vec![RawLine::Unreadable(7), RawLine::Text(String::from("{\"type\":\"a\"}"))];
    let histogram = aggregate(&lines);
    assert_eq!(
        materialize(&histogram),
        vec![row("a", 1, 12), row("unreadable-line", 1, 7)]
    );
}

#[test]
fn every_kind_of_line_lands_in_one_bucket() {
    let mut lines = lines_of(&[
        "{\"type\":\"login\"}",
        "not json",
        "42",
        "{\"other\":1}",
        "{\"type\":7}",
        "",
        "[\"type\"]",
        "{\"type\":\"login\",\"user\":\"x\"}",
    ]);
    lines.push(RawLine::Unreadable(3));
    let histogram = aggregate(&lines);
    assert_eq!(
        materialize(&histogram),
        vec![
            row("invalid-json", 2, 8),
            row("login", 2, 43),
            row("missing-type", 2, 21),
            row("non-json-object", 2, 10),
            row("unreadable-line", 1, 3),
        ]
    );
}

#[test]
fn counts_sum_to_the_number_of_lines() {
    let mut lines = Vec::new();
    for i in 0..50 {
        lines.push(match i % 5 {
            0 => RawLine::Text(String::from("{\"type\":\"a\"}")),
            1 => RawLine::Text(String::from("{\"type\":\"b\"}")),
            2 => RawLine::Text(String::from("{")),
            3 => RawLine::Text(String::from("null")),
            _ => RawLine::Unreadable(i),
        });
    }
    let histogram = aggregate(&lines);
    assert_eq!(histogram.total_count(), 50);
    assert_eq!(sum_of_counts(&histogram), 50);
    let bytes: usize = lines.iter().map(|line| line.byte_len()).sum();
    assert_eq!(histogram.total_bytes(), bytes);
}

#[test]
fn two_runs_over_the_same_lines_agree() {
    let lines = lines_of(&["{\"type\":\"x\"}", "oops", "{\"type\":\"y\"}", "{\"type\":\"x\"}"]);
    let first = aggregate(&lines);
    let second = aggregate(&lines);
    assert_eq!(materialize(&first), materialize(&second));
}

#[test]
fn processing_order_does_not_change_the_histogram() {
    let texts = ["{\"type\":\"x\"}", "oops", "{\"type\":\"y\"}", "{\"type\":\"x\"}", "17"];
    let forward = lines_of(&texts);
    let mut reversed_texts = texts;
    reversed_texts.reverse();
    let backward = lines_of(&reversed_texts);
    assert_eq!(materialize(&aggregate(&forward)), materialize(&aggregate(&backward)));
}

#[test]
fn merged_parts_equal_the_whole() {
    let texts = [
        "{\"type\":\"x\"}",
        "oops",
        "{\"type\":\"y\"}",
        "{\"type\":\"x\"}",
        "17",
        "{\"kind\":\"x\"}",
        "{\"type\":\"z\"}",
    ];
    let whole = aggregate(&lines_of(&texts));
    for mask in 0u32..(1 << texts.len()) {
        let mut left = Vec::new();
        let mut right = Vec::new();
        for (i, text) in texts.iter().enumerate() {
            if mask & (1 << i) != 0 {
                left.push(*text);
            } else {
                right.push(*text);
            }
        }
        let mut merged = aggregate(&lines_of(&left));
        let other = aggregate(&lines_of(&right));
        assert!(merged.room_for(other.total_count(), other.total_bytes()));
        merged.merge(&other);
        assert_eq!(materialize(&merged), materialize(&whole));
        assert_eq!(merged.total_count(), texts.len());
    }
}

#[test]
fn try_aggregate_agrees_with_aggregate() {
    let lines = lines_of(&["{\"type\":\"x\"}", "oops"]);
    let histogram = try_aggregate(&lines).expect("the bytes fit");
    assert_eq!(materialize(&histogram), materialize(&aggregate(&lines)));
}

#[test]
fn try_aggregate_gives_up_when_the_bytes_cannot_be_counted() {
    let lines = vec![RawLine::Unreadable(usize::MAX), RawLine::Unreadable(1)];
    assert!(try_aggregate(&lines).is_none());
    let lines = vec![RawLine::Unreadable(usize::MAX - 1), RawLine::Unreadable(1)];
    let histogram = try_aggregate(&lines).expect("the bytes just fit");
    assert_eq!(
        histogram.get("unreadable-line"),
        Some(HistogramEntry { count: 2, bytes: usize::MAX })
    );
}

#[test]
fn any_number_of_workers_gives_the_same_histogram() {
    let mut texts = Vec::new();
    for i in 0..40 {
        texts.push(match i % 4 {
            0 => "{\"type\":\"login\"}",
            1 => "{\"type\":\"logout\"}",
            2 => "{\"other\":1}",
            _ => "not json",
        });
    }
    let whole = aggregate(&lines_of(&texts));
    for workers in 1..=9 {
        let mut shards: Vec<Vec<&str>> = vec![Vec::new(); workers];
        for (i, text) in texts.iter().enumerate() {
            shards[(i * 7) % workers].push(*text);
        }
        let partials: Vec<Histogram> =
            shards.iter().map(|shard| aggregate(&lines_of(shard))).collect();
        let merged = merge_all(&partials);
        assert_eq!(materialize(&merged), materialize(&whole));
        assert_eq!(sum_of_counts(&merged), 40);
        assert_eq!(merged.total_count(), 40);
    }
}
