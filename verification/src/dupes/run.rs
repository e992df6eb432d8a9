use crate::dupes::bookkeeping::Bookkeeping;
use crate::dupes::report::{is_report, singleton_names, total_occurrences};
use crate::io::json::{json_document, json_members, parse_document, take_member};
use crate::utils::hash::{sha256, sha256_hex, MAX_HASHED_BYTES};
use crate::utils::text::text_eq;
use crate::utils::verbosity::Verbosity;
use vstd::prelude::*;
use vstd::utf8::encode_utf8;

verus! {

/// What a run is told: where to read, where to write, and how.
#[derive(Debug)]
pub struct Args {
    /// Path of the input; standard input where there is none.
    pub input_ndjson: Option<String>,
    /// Path of the output; standard output where there is none.
    pub output_csv: Option<String>,
    /// Number of threads that parse and hash.
    pub jobs: usize,
    /// How much is logged.
    pub verbosity: Verbosity,
}

/// The path that stands for standard output.
pub open spec fn standard_output() -> Seq<char> {
    seq!['-']
}

/// Whether `path` stands for standard output.
pub fn is_standard_output(path: &str) -> (standard: bool)
    ensures
        standard == (path@ == standard_output()),
{
    proof {
        reveal_strlit("-");
        assert("-"@ =~= standard_output());
    }
    text_eq(path, "-")
}

impl Args {
    /// The path to which the report is written: the one given, or `-`,
    /// which stands for standard output.
    pub fn output_path(&self) -> (path: String)
        ensures
            path@ == match self.output_csv {
                Some(given) => given@,
                None => standard_output(),
            },
    {
        match &self.output_csv {
            Some(given) => given.clone(),
            None => {
                proof {
                    reveal_strlit("-");
                    assert("-"@ =~= standard_output());
                }
                "-".to_owned()
            },
        }
    }

    /// The number of threads that parse and hash: as many as asked for, and
    /// one at least.
    pub fn workers(&self) -> (workers: usize)
        ensures
            workers == if self.jobs == 0 {
                1
            } else {
                self.jobs as int
            },
    {
        if self.jobs == 0 {
            1
        } else {
            self.jobs
        }
    }
}

/// The members that a record must hold, each as a JSON string, in the order
/// in which they are read.
#[derive(Clone, Copy, Debug, PartialEq, Eq, Structural)]
pub enum RequiredField {
    AccessionId,
    VirusName,
    CollectionDate,
    Location,
    Sequence,
}

/// The key under which a record holds `field`.
pub open spec fn key_of(field: RequiredField) -> Seq<char> {
    match field {
        RequiredField::AccessionId => "covv_accession_id"@,
        RequiredField::VirusName => "covv_virus_name"@,
        RequiredField::CollectionDate => "covv_collection_date"@,
        RequiredField::Location => "covv_location"@,
        RequiredField::Sequence => "sequence"@,
    }
}

/// The place of `field` in the order of reading.
pub open spec fn place_of(field: RequiredField) -> int {
    match field {
        RequiredField::AccessionId => 0,
        RequiredField::VirusName => 1,
        RequiredField::CollectionDate => 2,
        RequiredField::Location => 3,
        RequiredField::Sequence => 4,
    }
}

/// No two required members share a key.
pub proof fn lemma_keys_differ(a: RequiredField, b: RequiredField)
    ensures
        key_of(a) == key_of(b) ==> a == b,
{
    reveal_strlit("covv_accession_id");
    reveal_strlit("covv_virus_name");
    reveal_strlit("covv_collection_date");
    reveal_strlit("covv_location");
    reveal_strlit("sequence");
    assert(key_of(RequiredField::AccessionId).len() == 17);
    assert(key_of(RequiredField::VirusName).len() == 15);
    assert(key_of(RequiredField::CollectionDate).len() == 20);
    assert(key_of(RequiredField::Location).len() == 13);
    assert(key_of(RequiredField::Sequence).len() == 8);
}

impl RequiredField {
    /// The key under which a record holds the member.
    pub fn key(self) -> (key: &'static str)
        ensures
            key@ == key_of(self),
    {
        match self {
            RequiredField::AccessionId => "covv_accession_id",
            RequiredField::VirusName => "covv_virus_name",
            RequiredField::CollectionDate => "covv_collection_date",
            RequiredField::Location => "covv_location",
            RequiredField::Sequence => "sequence",
        }
    }
}

/// Why a line gives no record.
#[derive(Debug)]
pub enum EntryError {
    /// The line is not one JSON document.
    Syntax(serde_json::Error),
    /// The document has no such member; a document that is no object has none.
    Missing(RequiredField),
    /// The member is there and is no JSON string.
    NotText(RequiredField),
    /// The sequence has more bytes than the digest can count.
    SequenceTooLong,
}

/// The members of a document hold `field`, as a JSON string.
pub open spec fn holds_text(
    members: Map<Seq<char>, Option<Seq<char>>>,
    field: RequiredField,
) -> bool {
    members.contains_key(key_of(field)) && members[key_of(field)] is Some
}

/// The text that the members hold under `field`.
pub open spec fn text_of(members: Map<Seq<char>, Option<Seq<char>>>, field: RequiredField) -> Seq<
    char,
> {
    members[key_of(field)]->0
}

/// The members hold, as JSON strings, all that is read before `field`.
pub open spec fn holds_before(
    members: Map<Seq<char>, Option<Seq<char>>>,
    field: RequiredField,
) -> bool {
    forall|f: RequiredField| place_of(f) < place_of(field) ==> #[trigger] holds_text(members, f)
}

/// The members hold all five required members as JSON strings.
pub open spec fn holds_all(members: Map<Seq<char>, Option<Seq<char>>>) -> bool {
    forall|f: RequiredField| #[trigger] holds_text(members, f)
}

/// What is left of the members without the five required ones.
pub open spec fn without_required(members: Map<Seq<char>, Option<Seq<char>>>) -> Map<
    Seq<char>,
    Option<Seq<char>>,
> {
    members.remove(key_of(RequiredField::AccessionId)).remove(
        key_of(RequiredField::VirusName),
    ).remove(key_of(RequiredField::CollectionDate)).remove(key_of(RequiredField::Location)).remove(
        key_of(RequiredField::Sequence),
    )
}

/// `cause` is the reason for which the document with these members gives no
/// entry: the first required member, in the order of reading, that is
/// missing or is no JSON string.
pub open spec fn faults(cause: EntryError, members: Map<Seq<char>, Option<Seq<char>>>) -> bool {
    match cause {
        EntryError::Missing(field) => holds_before(members, field) && !members.contains_key(
            key_of(field),
        ),
        EntryError::NotText(field) => holds_before(members, field) && members.contains_key(
            key_of(field),
        ) && members[key_of(field)] is None,
        _ => false,
    }
}

/// One record as the input spells it.
#[derive(Debug)]
pub struct GisaidEntry {
    pub covv_accession_id: String,
    pub covv_virus_name: String,
    pub covv_collection_date: String,
    pub covv_location: String,
    pub sequence: String,
    /// The document without the five members above.
    pub other: serde_json::Value,
}

/// The required member `field` of a document, from what taking it out of the
/// document gave.
pub fn required_text(member: Option<Option<String>>, field: RequiredField) -> (text: Result<
    String,
    EntryError,
>)
    ensures
        match member {
            Some(Some(found)) => text == Ok::<String, EntryError>(found),
            Some(None) => text == Err::<String, EntryError>(EntryError::NotText(field)),
            None => text == Err::<String, EntryError>(EntryError::Missing(field)),
        },
{
    match member {
        Some(Some(found)) => Ok(found),
        Some(None) => Err(EntryError::NotText(field)),
        None => Err(EntryError::Missing(field)),
    }
}

impl GisaidEntry {
    /// The text that the entry holds for `field`.
    pub open spec fn text(&self, field: RequiredField) -> Seq<char> {
        match field {
            RequiredField::AccessionId => self.covv_accession_id@,
            RequiredField::VirusName => self.covv_virus_name@,
            RequiredField::CollectionDate => self.covv_collection_date@,
            RequiredField::Location => self.covv_location@,
            RequiredField::Sequence => self.sequence@,
        }
    }

    /// The entry that `members` spell: the five required texts, and what is
    /// left of the members.
    pub open spec fn spelled_by(&self, members: Map<Seq<char>, Option<Seq<char>>>) -> bool {
        &&& holds_all(members)
        &&& forall|f: RequiredField| #[trigger] self.text(f) == text_of(members, f)
        &&& json_members(self.other) == without_required(members)
    }

    /// The entry that a document spells, or the first required member that
    /// it lacks or holds as something other than a JSON string.
    pub fn from_document(document: serde_json::Value) -> (entry: Result<GisaidEntry, EntryError>)
        ensures
            match entry {
                Ok(entry) => entry.spelled_by(json_members(document)),
                Err(cause) => faults(cause, json_members(document)),
            },
    {
        let ghost members = json_members(document);
        proof {
            assert forall|a: RequiredField, b: RequiredField| key_of(a) == key_of(b) implies a
                == b by {
                lemma_keys_differ(a, b);
            }
        }
        let mut other = document;
        let covv_accession_id = required_text(
            take_member(&mut other, RequiredField::AccessionId.key()),
            RequiredField::AccessionId,
        )?;
        assert(holds_text(members, RequiredField::AccessionId));
        let covv_virus_name = required_text(
            take_member(&mut other, RequiredField::VirusName.key()),
            RequiredField::VirusName,
        )?;
        assert(holds_text(members, RequiredField::VirusName));
        let covv_collection_date = required_text(
            take_member(&mut other, RequiredField::CollectionDate.key()),
            RequiredField::CollectionDate,
        )?;
        assert(holds_text(members, RequiredField::CollectionDate));
        let covv_location = required_text(
            take_member(&mut other, RequiredField::Location.key()),
            RequiredField::Location,
        )?;
        assert(holds_text(members, RequiredField::Location));
        let sequence = required_text(
            take_member(&mut other, RequiredField::Sequence.key()),
            RequiredField::Sequence,
        )?;
        assert(holds_text(members, RequiredField::Sequence));
        Ok(
            GisaidEntry {
                covv_accession_id,
                covv_virus_name,
                covv_collection_date,
                covv_location,
                sequence,
                other,
            },
        )
    }

    /// The entry that a line of the input spells. The line must be one JSON
    /// document, an object that holds the five required members as JSON
    /// strings; what else it holds is kept aside.
    pub fn from_json_str(s: &str) -> (entry: Result<GisaidEntry, EntryError>)
        ensures
            match entry {
                Ok(entry) => json_document(s@) matches Some(members) && entry.spelled_by(members),
                Err(EntryError::Syntax(_)) => json_document(s@) is None,
                Err(cause) => json_document(s@) matches Some(members) && faults(cause, members),
            },
    {
        match parse_document(s) {
            Ok(document) => GisaidEntry::from_document(document),
            Err(error) => Err(EntryError::Syntax(error)),
        }
    }
}

/// One parsed line: a name, the digest of its sequence, and what else the
/// report lists of it.
#[derive(Clone, Debug, PartialEq, Eq)]
pub struct InternalEntry {
    /// Place of the line in the input, counted from 0.
    pub index: usize,
    pub seq_name: String,
    pub seq_hash: String,
    pub accession: String,
    pub location: String,
    pub date: String,
}

/// What an `InternalEntry` holds, as plain mathematical values.
pub struct NormalizedRecord {
    pub index: usize,
    pub seq_name: Seq<char>,
    pub seq_hash: Seq<char>,
    pub accession: Seq<char>,
    pub location: Seq<char>,
    pub date: Seq<char>,
}

impl View for InternalEntry {
    type V = NormalizedRecord;

    open spec fn view(&self) -> NormalizedRecord {
        NormalizedRecord {
            index: self.index,
            seq_name: self.seq_name@,
            seq_hash: self.seq_hash@,
            accession: self.accession@,
            location: self.location@,
            date: self.date@,
        }
    }
}

/// One row of the report: a name that several records carry.
#[derive(Clone, Debug, PartialEq, Eq)]
pub struct OutputEntry {
    /// Sequence name
    pub seq_name: String,
    /// Number of records with this name
    pub n_name_occurences: usize,
    /// Number of distinct sequence digests among them
    pub n_unique_seq_hashes: usize,
    /// Their distinct accessions, ascending, joined with `;`
    pub accessions: String,
    /// Their distinct dates, ascending, joined with `;`
    pub dates: String,
    /// Their distinct locations, ascending, joined with `;`
    pub locations: String,
    /// Their distinct sequence digests, ascending, joined with `;`
    pub hashes: String,
}

/// What an `OutputEntry` holds, as plain mathematical values.
pub struct ReportRow {
    pub seq_name: Seq<char>,
    pub n_name_occurences: nat,
    pub n_unique_seq_hashes: nat,
    pub accessions: Seq<char>,
    pub dates: Seq<char>,
    pub locations: Seq<char>,
    pub hashes: Seq<char>,
}

impl View for OutputEntry {
    type V = ReportRow;

    open spec fn view(&self) -> ReportRow {
        ReportRow {
            seq_name: self.seq_name@,
            n_name_occurences: self.n_name_occurences as nat,
            n_unique_seq_hashes: self.n_unique_seq_hashes as nat,
            accessions: self.accessions@,
            dates: self.dates@,
            locations: self.locations@,
            hashes: self.hashes@,
        }
    }
}

/// The records that a sequence of entries holds.
pub open spec fn records(entries: Seq<InternalEntry>) -> Seq<NormalizedRecord> {
    entries.map_values(|e: InternalEntry| e@)
}

/// The rows that a sequence of output entries holds.
pub open spec fn report_rows(rows: Seq<OutputEntry>) -> Seq<ReportRow> {
    rows.map_values(|r: OutputEntry| r@)
}

/// A line of the input that gives no record.
#[derive(Debug)]
pub struct ParseError {
    /// Place of the line in the input, counted from 0.
    pub index: usize,
    /// The line as it was read.
    pub text: String,
    pub cause: EntryError,
}

/// The record that the line `text` at place `index` gives, where it gives
/// one: the line spells an entry, and the digest can count its sequence.
pub open spec fn line_record(index: usize, text: Seq<char>) -> Option<NormalizedRecord> {
    match json_document(text) {
        Some(members) => if holds_all(members) && encode_utf8(
            text_of(members, RequiredField::Sequence),
        ).len() < MAX_HASHED_BYTES {
            Some(
                NormalizedRecord {
                    index,
                    seq_name: text_of(members, RequiredField::VirusName),
                    seq_hash: sha256_hex(text_of(members, RequiredField::Sequence)),
                    accession: text_of(members, RequiredField::AccessionId),
                    location: text_of(members, RequiredField::Location),
                    date: text_of(members, RequiredField::CollectionDate),
                },
            )
        } else {
            None
        },
        None => None,
    }
}

/// `cause` is the reason for which the line `text` gives no record.
pub open spec fn line_fault(cause: EntryError, text: Seq<char>) -> bool {
    match cause {
        EntryError::Syntax(_) => json_document(text) is None,
        EntryError::SequenceTooLong => json_document(text) matches Some(members) && holds_all(
            members,
        ) && encode_utf8(text_of(members, RequiredField::Sequence)).len() >= MAX_HASHED_BYTES,
        _ => json_document(text) matches Some(members) && faults(cause, members),
    }
}

/// The records that the lines give, each at its place.
pub open spec fn line_records(lines: Seq<String>) -> Seq<NormalizedRecord> {
    Seq::new(lines.len(), |i: int| line_record(i as usize, lines[i]@)->0)
}

impl InternalEntry {
    /// The record of an entry read at place `index`: its name, the digest of
    /// its sequence, its accession, location and date.
    pub fn from_entry(index: usize, entry: GisaidEntry) -> (record: Result<InternalEntry, EntryError>)
        ensures
            match record {
                Ok(record) => encode_utf8(entry.sequence@).len() < MAX_HASHED_BYTES && record@ == (
                NormalizedRecord {
                    index,
                    seq_name: entry.covv_virus_name@,
                    seq_hash: sha256_hex(entry.sequence@),
                    accession: entry.covv_accession_id@,
                    location: entry.covv_location@,
                    date: entry.covv_collection_date@,
                }),
                Err(EntryError::SequenceTooLong) => encode_utf8(entry.sequence@).len()
                    >= MAX_HASHED_BYTES,
                Err(_) => false,
            },
    {
        if entry.sequence.as_str().as_bytes().len() as u64 >= MAX_HASHED_BYTES {
            return Err(EntryError::SequenceTooLong);
        }
        let seq_hash = sha256(entry.sequence.as_str());
        Ok(
            InternalEntry {
                index,
                seq_name: entry.covv_virus_name,
                seq_hash,
                accession: entry.covv_accession_id,
                location: entry.covv_location,
                date: entry.covv_collection_date,
            },
        )
    }
}

/// Parses the line read at place `index` and hashes its sequence.
pub fn parse_line(index: usize, line: &str) -> (record: Result<InternalEntry, ParseError>)
    ensures
        match record {
            Ok(record) => line_record(index, line@) == Some(record@),
            Err(error) => {
                &&& line_record(index, line@) is None
                &&& line_fault(error.cause, line@)
                &&& error.index == index
                &&& error.text@ == line@
            },
        },
{
    let parsed = match GisaidEntry::from_json_str(line) {
        Ok(entry) => {
            proof {
                let members = json_document(line@)->0;
                assert(entry.text(RequiredField::Sequence) == text_of(members, RequiredField::Sequence));
                assert(entry.text(RequiredField::VirusName) == text_of(members, RequiredField::VirusName));
                assert(entry.text(RequiredField::AccessionId) == text_of(
                    members,
                    RequiredField::AccessionId,
                ));
                assert(entry.text(RequiredField::Location) == text_of(members, RequiredField::Location));
                assert(entry.text(RequiredField::CollectionDate) == text_of(
                    members,
                    RequiredField::CollectionDate,
                ));
            }
            InternalEntry::from_entry(index, entry)
        },
        Err(cause) => {
            proof {
                match cause {
                    EntryError::Missing(field) => {
                        assert(!holds_text(json_document(line@)->0, field));
                    },
                    EntryError::NotText(field) => {
                        assert(!holds_text(json_document(line@)->0, field));
                    },
                    _ => {},
                }
            }
            Err(cause)
        },
    };
    match parsed {
        Ok(record) => Ok(record),
        Err(cause) => Err(ParseError { index, text: line.to_owned(), cause }),
    }
}

/// Whether the line at place `index` is one at which progress is told:
/// every millionth, the first left out.
pub fn is_progress_mark(index: usize) -> (mark: bool)
    ensures
        mark == (index > 0 && index % 1_000_000 == 0),
{
    index > 0 && index % 1_000_000 == 0
}

/// The report of the duplicates among the lines of an input: parses and
/// hashes each line, keeps the records by name, and ranks the names that
/// more than one record carries. The first line that gives no record ends
/// the run with that line's error, and no row is reported.
pub fn run(lines: &Vec<String>) -> (outcome: Result<Vec<OutputEntry>, ParseError>)
    ensures
        match outcome {
            Ok(rows) => {
                &&& forall|i: int|
                    0 <= i < lines.len() ==> line_record(i as usize, #[trigger] lines[i]@) is Some
                &&& is_report(report_rows(rows@), line_records(lines@))
                &&& total_occurrences(report_rows(rows@)) + singleton_names(
                    line_records(lines@),
                ).len() == lines.len()
            },
            Err(error) => {
                &&& error.index < lines.len()
                &&& forall|i: int|
                    0 <= i < error.index ==> line_record(i as usize, #[trigger] lines[i]@) is Some
                &&& line_record(error.index, lines[error.index as int]@) is None
                &&& line_fault(error.cause, lines[error.index as int]@)
                &&& error.text@ == lines[error.index as int]@
            },
        },
{
    let mut bookkeeping = Bookkeeping::new();
    let mut index: usize = 0;
    while index < lines.len()
        invariant
            index <= lines.len(),
            bookkeeping.wf(),
            bookkeeping@ == line_records(lines@).take(index as int),
            forall|i: int| 0 <= i < index ==> line_record(i as usize, #[trigger] lines[i]@) is Some,
        decreases lines.len() - index,
    {
        match parse_line(index, lines[index].as_str()) {
            Ok(record) => {
                bookkeeping.insert(record);
                proof {
                    assert(line_records(lines@).take(index + 1) =~= line_records(lines@).take(
                        index as int,
                    ).push(record@));
                }
            },
            Err(error) => {
                return Err(error);
            },
        }
        index += 1;
    }
    proof {
        assert(line_records(lines@).take(lines.len() as int) =~= line_records(lines@));
    }
    Ok(bookkeeping.report())
}

} // verus!
