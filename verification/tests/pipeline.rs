use gisaid_dupes::dupes::run::{
    is_progress_mark, parse_line, run, EntryError, GisaidEntry, InternalEntry, OutputEntry,
    RequiredField,
};

const ACGT: &str = "1dff3e84fe7877e0673b69bbddcf40124e396e3f9943dd890c91b6a09adb9af0";
const ACGA: &str = "66b270c0d57529c39a5f52293606adb9a193b2c4e71137c32612b1df8fb695b1";
const TTTT: &str = "3fd8b2c4aea744d950ecb00284070196d22689496b95cef3f3ad7077d360ed38";

fn line(accession: &str, name: &str, date: &str, location: &str, sequence: &str) -> String {
    format!(
        "{{\"covv_accession_id\": \"{accession}\", \"covv_virus_name\": \"{name}\", \
         \"covv_collection_date\": \"{date}\", \"covv_location\": \"{location}\", \
         \"sequence\": \"{sequence}\", \"covv_lineage\": \"B.1\", \"n\": 3}}"
    )
}

fn sample() -> Vec<String> {
    vec![
        line("acc5", "B/two", "2021-03-01", "Asia", "ACGT"),
        line("acc1", "A/three", "2021-01-02", "Europe / Spain", "ACGT"),
        line("acc9", "D/single", "2021-09-09", "Africa", "TTTT"),
        line("acc2", "A/three", "2021-01-01", "Europe / Spain", "ACGA"),
        line("acc6", "B/two", "2021-03-01", "Asia", "ACGT"),
        line("acc7", "C/two", "2021-04-01", "Oceania", "ACGT"),
        line("acc3", "A/three", "2021-01-02", "Europe / France", "ACGT"),
        line("acc8", "C/two", "2021-04-02", "Oceania", "TTTT"),
        line("acc4", "E/single", "2021-08-08", "Africa", "ACGT"),
    ]
}

fn names(rows: &[OutputEntry]) -> Vec<String> {
    rows.iter().map(|row| row.seq_name.clone()).collect()
}

#[test]
fn two_records_of_one_name_make_one_row() {
    let lines = vec![
        line("acc1", "A/x", "2020-01-01", "Europe", "ACGT"),
        line("acc3", "A/y", "2020-01-03", "Asia", "TTTT"),
        line("acc2", "A/x", "2020-01-02", "Europe", "ACGT"),
    ];
    let rows = run(&lines).unwrap();
    assert_eq!(rows.len(), 1);
    let row = &rows[0];
    assert_eq!(row.seq_name, "A/x");
    assert_eq!(row.n_name_occurences, 2);
    assert_eq!(row.n_unique_seq_hashes, 1);
    assert_eq!(row.accessions, "acc1;acc2");
    assert_eq!(row.dates, "2020-01-01;2020-01-02");
    assert_eq!(row.locations, "Europe");
    assert_eq!(row.hashes, ACGT);
}

#[test]
fn malformed_line_fails_the_run() {
    let lines = vec![
        line("acc1", "A/x", "2020-01-01", "Europe", "ACGT"),
        line("acc2", "A/x", "2020-01-02", "Europe", "ACGT"),
        "{\"covv_accession_id\": \"acc3\", ".to_string(),
        line("acc4", "A/x", "2020-01-04", "Europe", "ACGT"),
    ];
    let error = run(&lines).unwrap_err();
    assert_eq!(error.index, 2);
    assert_eq!(error.text, lines[2]);
    assert!(matches!(error.cause, EntryError::Syntax(_)));
}

#[test]
fn malformed_first_or_last_line_fails_the_run() {
    let good = line("acc1", "A/x", "2020-01-01", "Europe", "ACGT");
    let first = vec!["not json".to_string(), good.clone(), good.clone()];
    assert_eq!(run(&first).unwrap_err().index, 0);
    let last = vec![good.clone(), good.clone(), "[1, 2".to_string()];
    assert_eq!(run(&last).unwrap_err().index, 2);
}

#[test]
fn the_first_of_two_bad_lines_is_reported() {
    let good = line("acc1", "A/x", "2020-01-01", "Europe", "ACGT");
    let lines = vec![good, "{}".to_string(), "%".to_string()];
    let error = run(&lines).unwrap_err();
    assert_eq!(error.index, 1);
    assert_eq!(error.text, "{}");
    assert!(matches!(
        error.cause,
        EntryError::Missing(RequiredField::AccessionId)
    ));
}

#[test]
fn empty_input_gives_an_empty_report() {
    let rows = run(&Vec::new()).unwrap();
    assert!(rows.is_empty());
}

#[test]
fn names_that_occur_once_are_not_reported() {
    let lines = vec![
        line("acc1", "A/x", "2020-01-01", "Europe", "ACGT"),
        line("acc2", "A/y", "2020-01-02", "Europe", "ACGT"),
        line("acc3", "A/z", "2020-01-03", "Europe", "ACGT"),
    ];
    assert!(run(&lines).unwrap().is_empty());
}

#[test]
fn rows_are_ranked_by_occurrences_then_digests_then_name() {
    let rows = run(&sample()).unwrap();
    assert_eq!(names(&rows), vec!["A/three", "C/two", "B/two"]);
    assert_eq!(rows[0].n_name_occurences, 3);
    assert_eq!(rows[0].n_unique_seq_hashes, 2);
    assert_eq!(rows[1].n_name_occurences, 2);
    assert_eq!(rows[1].n_unique_seq_hashes, 2);
    assert_eq!(rows[2].n_name_occurences, 2);
    assert_eq!(rows[2].n_unique_seq_hashes, 1);
}

#[test]
fn rows_that_agree_in_both_counts_are_ordered_by_name() {
    let lines = vec![
        line("a1", "zeta", "d", "l", "ACGT"),
        line("a2", "alpha", "d", "l", "ACGT"),
        line("a3", "Zeta", "d", "l", "ACGT"),
        line("a4", "zeta", "d", "l", "ACGT"),
        line("a5", "Zeta", "d", "l", "ACGT"),
        line("a6", "alpha", "d", "l", "ACGT"),
    ];
    let rows = run(&lines).unwrap();
    assert_eq!(names(&rows), vec!["Zeta", "alpha", "zeta"]);
}

#[test]
fn listed_fields_are_sorted_and_hold_nothing_twice() {
    let rows = run(&sample()).unwrap();
    let row = &rows[0];
    assert_eq!(row.accessions, "acc1;acc2;acc3");
    assert_eq!(row.dates, "2021-01-01;2021-01-02");
    assert_eq!(row.locations, "Europe / France;Europe / Spain");
    assert_eq!(row.hashes, format!("{ACGT};{ACGA}"));
    let row = &rows[1];
    assert_eq!(row.hashes, format!("{ACGT};{TTTT}"));
    assert_eq!(row.locations, "Oceania");
}

#[test]
fn occurrences_and_single_names_account_for_every_line() {
    let lines = sample();
    let rows = run(&lines).unwrap();
    let counted: usize = rows.iter().map(|row| row.n_name_occurences).sum();
    let single_names = 2;
    assert_eq!(counted + single_names, lines.len());
}

#[test]
fn no_row_counts_fewer_than_two_and_digests_stay_within() {
    for row in run(&sample()).unwrap() {
        assert!(row.n_name_occurences >= 2);
        assert!(row.n_unique_seq_hashes <= row.n_name_occurences);
        assert!(row.n_unique_seq_hashes >= 1);
    }
}

#[test]
fn neighbouring_rows_descend() {
    let rows = run(&sample()).unwrap();
    for pair in rows.windows(2) {
        let (a, b) = (&pair[0], &pair[1]);
        assert!(
            a.n_name_occurences > b.n_name_occurences
                || (a.n_name_occurences == b.n_name_occurences
                    && a.n_unique_seq_hashes >= b.n_unique_seq_hashes)
        );
    }
}

#[test]
fn the_report_does_not_depend_on_the_order_of_the_lines() {
    let lines = sample();
    let expected = run(&lines).unwrap();
    assert_eq!(run(&lines).unwrap(), expected);
    let mut reversed = lines.clone();
    reversed.reverse();
    assert_eq!(run(&reversed).unwrap(), expected);
    let mut rotated = lines.clone();
    rotated.rotate_left(4);
    assert_eq!(run(&rotated).unwrap(), expected);
}

#[test]
fn sequences_are_compared_byte_for_byte() {
    let lines = vec![
        line("a1", "A/x", "d", "l", "ACGT"),
        line("a2", "A/x", "d", "l", "acgt"),
        line("a3", "A/x", "d", "l", "AC GT"),
    ];
    let rows = run(&lines).unwrap();
    assert_eq!(rows.len(), 1);
    assert_eq!(rows[0].n_name_occurences, 3);
    assert_eq!(rows[0].n_unique_seq_hashes, 3);
}

#[test]
fn names_are_compared_exactly() {
    let lines = vec![
        line("a1", "A/x", "d", "l", "ACGT"),
        line("a2", "a/x", "d", "l", "ACGT"),
        line("a3", "A/x ", "d", "l", "ACGT"),
    ];
    assert!(run(&lines).unwrap().is_empty());
}

#[test]
fn a_name_under_which_one_record_comes_twice_is_reported() {
    let same = line("acc1", "A/x", "2020-01-01", "Europe", "ACGT");
    let rows = run(&vec![same.clone(), same]).unwrap();
    assert_eq!(rows.len(), 1);
    assert_eq!(rows[0].n_name_occurences, 2);
    assert_eq!(rows[0].n_unique_seq_hashes, 1);
    assert_eq!(rows[0].accessions, "acc1");
    assert_eq!(rows[0].dates, "2020-01-01");
}

#[test]
fn parse_line_gives_the_record_of_the_line() {
    let text = line("EPI_1", "hCoV-19/X/1/2020", "2020-02-03", "Europe / Italy", "ACGT");
    let entry = parse_line(41, &text).unwrap();
    assert_eq!(
        entry,
        InternalEntry {
            index: 41,
            seq_name: "hCoV-19/X/1/2020".to_string(),
            seq_hash: ACGT.to_string(),
            accession: "EPI_1".to_string(),
            location: "Europe / Italy".to_string(),
            date: "2020-02-03".to_string(),
        }
    );
}

#[test]
fn parse_line_reads_escapes_and_other_scripts() {
    let text = "{\"covv_accession_id\": \"a\\\"b\", \"covv_virus_name\": \"\\u00e9t\\u00e9/\u{4e2d}\", \
                \"covv_collection_date\": \"\", \"covv_location\": \"x\\ny\", \"sequence\": \"\"}";
    let entry = parse_line(0, text).unwrap();
    assert_eq!(entry.accession, "a\"b");
    assert_eq!(entry.seq_name, "\u{e9}t\u{e9}/\u{4e2d}");
    assert_eq!(entry.date, "");
    assert_eq!(entry.location, "x\ny");
    assert_eq!(
        entry.seq_hash,
        "e3b0c44298fc1c149afbf4c8996fb92427ae41e4649b934ca495991b7852b855"
    );
}

#[test]
fn line_without_a_member_is_refused() {
    let text = "{\"covv_accession_id\": \"a\", \"covv_virus_name\": \"n\", \
                \"covv_collection_date\": \"d\", \"sequence\": \"ACGT\"}";
    let error = parse_line(7, text).unwrap_err();
    assert_eq!(error.index, 7);
    assert_eq!(error.text, text);
    assert!(matches!(
        error.cause,
        EntryError::Missing(RequiredField::Location)
    ));
}

#[test]
fn each_required_member_is_asked_for() {
    let fields = [
        ("covv_accession_id", RequiredField::AccessionId),
        ("covv_virus_name", RequiredField::VirusName),
        ("covv_collection_date", RequiredField::CollectionDate),
        ("covv_location", RequiredField::Location),
        ("sequence", RequiredField::Sequence),
    ];
    for (left_out, field) in fields {
        let members: Vec<String> = fields
            .iter()
            .filter(|(key, _)| *key != left_out)
            .map(|(key, _)| format!("\"{key}\": \"v\""))
            .collect();
        let text = format!("{{{}}}", members.join(", "));
        match GisaidEntry::from_json_str(&text) {
            Err(EntryError::Missing(missing)) => assert_eq!(missing, field),
            other => panic!("{other:?}"),
        }
        assert_eq!(field.key(), left_out);
    }
}

#[test]
fn the_first_fault_in_the_order_of_reading_is_reported() {
    let text = "{\"sequence\": 1, \"covv_location\": \"l\", \"covv_virus_name\": null, \
                \"covv_accession_id\": \"a\"}";
    assert!(matches!(
        GisaidEntry::from_json_str(text),
        Err(EntryError::NotText(RequiredField::VirusName))
    ));
    let text = "{\"sequence\": 1, \"covv_location\": \"l\", \"covv_virus_name\": \"n\", \
                \"covv_accession_id\": \"a\"}";
    assert!(matches!(
        GisaidEntry::from_json_str(text),
        Err(EntryError::Missing(RequiredField::CollectionDate))
    ));
}

#[test]
fn member_that_is_no_string_is_refused() {
    for value in ["null", "12", "true", "[\"ACGT\"]", "{\"s\": \"ACGT\"}"] {
        let text = format!(
            "{{\"covv_accession_id\": \"a\", \"covv_virus_name\": \"n\", \
             \"covv_collection_date\": \"d\", \"covv_location\": \"l\", \"sequence\": {value}}}"
        );
        assert!(matches!(
            GisaidEntry::from_json_str(&text),
            Err(EntryError::NotText(RequiredField::Sequence))
        ));
    }
}

#[test]
fn document_that_is_no_object_has_no_members() {
    for text in ["[]", "\"text\"", "17", "null", "true"] {
        assert!(matches!(
            GisaidEntry::from_json_str(text),
            Err(EntryError::Missing(RequiredField::AccessionId))
        ));
    }
}

#[test]
fn text_that_is_not_one_document_is_refused() {
    for text in ["", "{", "{\"a\": 1} {\"b\": 2}", "{'a': 1}", "{\"a\": 1,}", "nul"] {
        assert!(matches!(
            GisaidEntry::from_json_str(text),
            Err(EntryError::Syntax(_))
        ));
    }
}

#[test]
fn other_members_are_kept_aside() {
    let text = line("EPI_1", "A/x", "2020-02-03", "Europe", "ACGT");
    let entry = GisaidEntry::from_json_str(&text).unwrap();
    assert_eq!(entry.covv_accession_id, "EPI_1");
    assert_eq!(entry.covv_virus_name, "A/x");
    assert_eq!(entry.covv_collection_date, "2020-02-03");
    assert_eq!(entry.covv_location, "Europe");
    assert_eq!(entry.sequence, "ACGT");
    let other = entry.other.as_object().unwrap();
    assert_eq!(other.len(), 2);
    assert_eq!(other["covv_lineage"], serde_json::Value::from("B.1"));
    assert_eq!(other["n"], serde_json::Value::from(3));
    assert!(other.get("sequence").is_none());
}

#[test]
fn an_entry_becomes_a_record_with_the_digest_of_its_sequence() {
    let text = line("EPI_1", "A/x", "2020-02-03", "Europe", "ACGA");
    let entry = GisaidEntry::from_json_str(&text).unwrap();
    let record = InternalEntry::from_entry(5, entry).unwrap();
    assert_eq!(record.index, 5);
    assert_eq!(record.seq_name, "A/x");
    assert_eq!(record.seq_hash, ACGA);
    assert_eq!(record.accession, "EPI_1");
    assert_eq!(record.location, "Europe");
    assert_eq!(record.date, "2020-02-03");
}

#[test]
fn progress_is_told_at_every_millionth_line_but_the_first() {
    assert!(!is_progress_mark(0));
    assert!(!is_progress_mark(1));
    assert!(!is_progress_mark(999_999));
    assert!(is_progress_mark(1_000_000));
    assert!(!is_progress_mark(1_000_001));
    assert!(is_progress_mark(7_000_000));
}
