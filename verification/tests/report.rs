use gisaid_dupes::dupes::bookkeeping::{Aggregator, Bookkeeping};
use gisaid_dupes::dupes::report::{
    distinct, distinct_sorted, rank_rows, row_ranks_before, summarize_group, ListedField,
};
use gisaid_dupes::dupes::run::{EntryError, InternalEntry, OutputEntry, ParseError};

fn entry(index: usize, name: &str, hash: &str, accession: &str, location: &str, date: &str) -> InternalEntry {
    InternalEntry {
        index,
        seq_name: name.to_string(),
        seq_hash: hash.to_string(),
        accession: accession.to_string(),
        location: location.to_string(),
        date: date.to_string(),
    }
}

fn row(name: &str, occurrences: usize, digests: usize) -> OutputEntry {
    OutputEntry {
        seq_name: name.to_string(),
        n_name_occurences: occurrences,
        n_unique_seq_hashes: digests,
        accessions: String::new(),
        dates: String::new(),
        locations: String::new(),
        hashes: String::new(),
    }
}

fn failure(index: usize) -> ParseError {
    ParseError {
        index,
        text: format!("line {index}"),
        cause: EntryError::SequenceTooLong,
    }
}

#[test]
fn summarize_group_counts_and_lists() {
    let entries = vec![
        entry(4, "n", "h2", "b", "Rome", "2020"),
        entry(1, "n", "h1", "c", "Oslo", "2021"),
        entry(9, "n", "h2", "a", "Rome", "2019"),
    ];
    let row = summarize_group("n".to_string(), &entries).unwrap();
    assert_eq!(
        row,
        OutputEntry {
            seq_name: "n".to_string(),
            n_name_occurences: 3,
            n_unique_seq_hashes: 2,
            accessions: "a;b;c".to_string(),
            dates: "2019;2020;2021".to_string(),
            locations: "Oslo;Rome".to_string(),
            hashes: "h1;h2".to_string(),
        }
    );
}

#[test]
fn summarize_group_gives_no_row_for_fewer_than_two() {
    assert_eq!(summarize_group("n".to_string(), &Vec::new()), None);
    let one = vec![entry(0, "n", "h", "a", "l", "d")];
    assert_eq!(summarize_group("n".to_string(), &one), None);
}

#[test]
fn distinct_sorted_lists_each_text_once() {
    let entries = vec![
        entry(0, "n", "h", "b", "l", "d2"),
        entry(1, "n", "h", "a", "l", "d1"),
        entry(2, "n", "h", "b", "l", "d10"),
    ];
    assert_eq!(distinct_sorted(&entries, ListedField::Accession), vec!["a", "b"]);
    assert_eq!(distinct_sorted(&entries, ListedField::Date), vec!["d1", "d10", "d2"]);
    assert_eq!(distinct_sorted(&entries, ListedField::Location), vec!["l"]);
    assert_eq!(distinct_sorted(&entries, ListedField::Hash), vec!["h"]);
    assert!(distinct_sorted(&Vec::new(), ListedField::Hash).is_empty());
}

#[test]
fn distinct_gathers_the_texts_of_a_field() {
    let entries = vec![
        entry(0, "n", "h2", "b", "l", "d"),
        entry(1, "n", "h1", "a", "l", "d"),
        entry(2, "n", "h2", "b", "l", "d"),
    ];
    let digests = distinct(&entries, ListedField::Hash);
    assert_eq!(digests.len(), 2);
    assert_eq!(digests.join(";"), "h1;h2");
    assert_eq!(distinct(&entries, ListedField::Location).len(), 1);
    assert_eq!(distinct(&Vec::new(), ListedField::Date).len(), 0);
}

#[test]
fn field_picks_the_listed_field() {
    let e = entry(0, "name", "hash", "accession", "location", "date");
    assert_eq!(e.field(ListedField::Accession), "accession");
    assert_eq!(e.field(ListedField::Date), "date");
    assert_eq!(e.field(ListedField::Location), "location");
    assert_eq!(e.field(ListedField::Hash), "hash");
}

#[test]
fn row_ranks_before_compares_counts_then_names() {
    assert!(row_ranks_before(&row("b", 3, 1), &row("a", 2, 2)));
    assert!(!row_ranks_before(&row("a", 2, 2), &row("b", 3, 1)));
    assert!(row_ranks_before(&row("b", 2, 2), &row("a", 2, 1)));
    assert!(!row_ranks_before(&row("a", 2, 1), &row("b", 2, 2)));
    assert!(row_ranks_before(&row("a", 2, 2), &row("b", 2, 2)));
    assert!(!row_ranks_before(&row("b", 2, 2), &row("a", 2, 2)));
    assert!(!row_ranks_before(&row("a", 2, 2), &row("a", 2, 2)));
}

#[test]
fn rank_rows_sorts_and_keeps_every_row() {
    let rows = vec![
        row("e", 2, 1),
        row("b", 5, 1),
        row("d", 2, 2),
        row("a", 5, 1),
        row("c", 9, 3),
        row("f", 2, 1),
        row("g", 5, 4),
    ];
    let ranking = rank_rows(rows);
    let order: Vec<&str> = ranking.iter().map(|r| r.seq_name.as_str()).collect();
    assert_eq!(order, vec!["c", "g", "a", "b", "d", "e", "f"]);
}

#[test]
fn rank_rows_of_few_rows() {
    assert!(rank_rows(Vec::new()).is_empty());
    assert_eq!(rank_rows(vec![row("a", 2, 1)]), vec![row("a", 2, 1)]);
    assert_eq!(
        rank_rows(vec![row("a", 2, 1), row("b", 3, 1)]),
        vec![row("b", 3, 1), row("a", 2, 1)]
    );
}

#[test]
fn rank_rows_of_many_rows() {
    let mut rows = Vec::new();
    for i in 0..500usize {
        rows.push(row(&format!("name{:03}", (i * 7919) % 500), 2 + (i * 31) % 5, 1 + (i * 17) % 2));
    }
    let ranking = rank_rows(rows.clone());
    assert_eq!(ranking.len(), rows.len());
    for pair in ranking.windows(2) {
        assert!(row_ranks_before(&pair[0], &pair[1]));
    }
    for r in &rows {
        assert!(ranking.contains(r));
    }
}

#[test]
fn bookkeeping_reports_what_it_was_given() {
    let mut bookkeeping = Bookkeeping::new();
    assert!(bookkeeping.report().is_empty());
    bookkeeping.insert(entry(0, "x", "h1", "a2", "l", "d"));
    assert!(bookkeeping.report().is_empty());
    bookkeeping.insert(entry(1, "y", "h1", "a3", "l", "d"));
    bookkeeping.insert(entry(2, "x", "h2", "a1", "l", "d"));
    let rows = bookkeeping.report();
    assert_eq!(rows.len(), 1);
    assert_eq!(rows[0].seq_name, "x");
    assert_eq!(rows[0].n_name_occurences, 2);
    assert_eq!(rows[0].n_unique_seq_hashes, 2);
    assert_eq!(rows[0].accessions, "a1;a2");
    bookkeeping.insert(entry(3, "y", "h1", "a4", "l", "d"));
    bookkeeping.insert(entry(4, "y", "h1", "a5", "l", "d"));
    let rows = bookkeeping.report();
    let order: Vec<&str> = rows.iter().map(|r| r.seq_name.as_str()).collect();
    assert_eq!(order, vec!["y", "x"]);
    assert_eq!(rows[0].n_name_occurences, 3);
    assert_eq!(rows[0].accessions, "a3;a4;a5");
}

#[test]
fn bookkeeping_gives_one_report_for_any_order_of_arrival() {
    let entries = vec![
        entry(0, "x", "h1", "a", "l", "d"),
        entry(1, "y", "h2", "b", "l", "d"),
        entry(2, "x", "h3", "c", "l", "d"),
        entry(3, "z", "h4", "d", "l", "d"),
        entry(4, "y", "h2", "e", "l", "d"),
        entry(5, "x", "h1", "f", "l", "d"),
    ];
    let mut forward = Bookkeeping::new();
    for e in entries.iter().cloned() {
        forward.insert(e);
    }
    let mut backward = Bookkeeping::new();
    for e in entries.iter().rev().cloned() {
        backward.insert(e);
    }
    assert_eq!(forward.report(), backward.report());
    assert_eq!(forward.report().len(), 2);
}

#[test]
fn aggregator_reports_when_nothing_failed() {
    let mut aggregator = Aggregator::new();
    aggregator.accept(Ok(entry(0, "x", "h", "a", "l", "d")));
    aggregator.accept(Ok(entry(1, "x", "h", "b", "l", "d")));
    assert!(!aggregator.has_failed());
    let rows = aggregator.finish().unwrap();
    assert_eq!(rows.len(), 1);
    assert_eq!(rows[0].accessions, "a;b");
}

#[test]
fn aggregator_keeps_the_first_failure_and_gives_no_row() {
    let mut aggregator = Aggregator::new();
    aggregator.accept(Ok(entry(0, "x", "h", "a", "l", "d")));
    aggregator.accept(Ok(entry(1, "x", "h", "b", "l", "d")));
    aggregator.accept(Err(failure(2)));
    assert!(aggregator.has_failed());
    aggregator.accept(Ok(entry(3, "x", "h", "c", "l", "d")));
    aggregator.accept(Err(failure(4)));
    let error = aggregator.finish().unwrap_err();
    assert_eq!(error.index, 2);
    assert_eq!(error.text, "line 2");
    assert!(matches!(error.cause, EntryError::SequenceTooLong));
}

#[test]
fn aggregator_without_input_gives_an_empty_report() {
    assert!(Aggregator::new().finish().unwrap().is_empty());
}
