use crate::dupes::laws::lemma_occurrences_account;
use crate::dupes::report::{
    group_of, is_report, lemma_group_members, lemma_group_push, lemma_ranks_total, rank_rows,
    ranks_before, row_of, singleton_names, summarize_group, total_occurrences,
};
use crate::dupes::run::{
    records, report_rows, InternalEntry, NormalizedRecord, OutputEntry, ParseError,
};
use vstd::hash_map::StringHashMap;
use vstd::prelude::*;
use vstd::seq_lib::group_to_multiset_ensures;

verus! {

/// The records of one name, in the order in which they came.
struct Group {
    name: String,
    entries: Vec<InternalEntry>,
}

/// All records seen so far, kept by name.
pub struct Bookkeeping {
    groups: Vec<Group>,
    /// For each name, the place of its group in `groups`.
    index: StringHashMap<usize>,
    /// The records in the order in which they came.
    history: Ghost<Seq<NormalizedRecord>>,
}

impl View for Bookkeeping {
    type V = Seq<NormalizedRecord>;

    /// The records inserted so far, in the order of their insertion.
    closed spec fn view(&self) -> Seq<NormalizedRecord> {
        self.history@
    }
}

impl Bookkeeping {
    /// Each name seen has one group, which holds the records of that name
    /// in the order in which they came, and the index finds it.
    pub closed spec fn wf(&self) -> bool {
        &&& forall|name: Seq<char>| #[trigger]
            self.index@.contains_key(name) ==> self.index@[name] < self.groups.len()
                && self.groups[self.index@[name] as int].name@ == name
        &&& forall|k: int|
            0 <= k < self.groups.len() ==> {
                let group = #[trigger] self.groups[k];
                &&& self.index@.contains_key(group.name@)
                &&& self.index@[group.name@] == k
                &&& records(group.entries@) == group_of(self.history@, group.name@)
            }
        &&& forall|i: int|
            0 <= i < self.history@.len() ==> self.index@.contains_key(
                (#[trigger] self.history@[i]).seq_name,
            )
    }

    /// A bookkeeping that has seen no record.
    pub fn new() -> (fresh: Bookkeeping)
        ensures
            fresh.wf(),
            fresh@ == Seq::<NormalizedRecord>::empty(),
    {
        Bookkeeping { groups: Vec::new(), index: StringHashMap::new(), history: Ghost(Seq::empty()) }
    }

    /// Takes one more record into the group of its name; the first record of
    /// a name opens the group.
    pub fn insert(&mut self, entry: InternalEntry)
        requires
            old(self).wf(),
        ensures
            final(self).wf(),
            final(self)@ == old(self)@.push(entry@),
    {
        let ghost record = entry@;
        let ghost before = self.history@;
        let found: Option<usize> = match self.index.get(entry.seq_name.as_str()) {
            Some(k) => Some(*k),
            None => None,
        };
        proof {
            assert forall|name: Seq<char>| true implies group_of(before.push(record), name) == if record.seq_name
                == name {
                group_of(before, name).push(record)
            } else {
                #[trigger] group_of(before, name)
            } by {
                lemma_group_push(before, record, name);
            }
        }
        match found {
            Some(k) => {
                self.groups[k].entries.push(entry);
                proof {
                    assert(records(self.groups[k as int].entries@) =~= records(
                        old(self).groups[k as int].entries@,
                    ).push(record));
                }
            },
            None => {
                let name = entry.seq_name.clone();
                self.index.insert(entry.seq_name.clone(), self.groups.len());
                let mut entries: Vec<InternalEntry> = Vec::new();
                entries.push(entry);
                proof {
                    lemma_group_members(before, record.seq_name);
                    assert(records(entries@) =~= group_of(before, record.seq_name).push(record));
                }
                self.groups.push(Group { name, entries });
            },
        }
        proof {
            self.history@ = before.push(record);
        }
    }

    /// The report of the records seen: a row for each name that more than one
    /// of them carries, the rows in the order of the report. The occurrences
    /// that the rows count and the names that one record alone carries
    /// account for every record.
    pub fn report(&self) -> (rows: Vec<OutputEntry>)
        requires
            self.wf(),
        ensures
            is_report(report_rows(rows@), self@),
            total_occurrences(report_rows(rows@)) + singleton_names(self@).len() == self@.len(),
    {
        let mut found: Vec<OutputEntry> = Vec::new();
        let ghost all = self.history@;
        let mut k: usize = 0;
        while k < self.groups.len()
            invariant
                self.wf(),
                all == self.history@,
                k <= self.groups.len(),
                forall|j: int|
                    0 <= j < found.len() ==> {
                        let name = (#[trigger] found[j])@.seq_name;
                        &&& self.index@.contains_key(name)
                        &&& self.index@[name] < k
                        &&& group_of(all, name).len() >= 2
                        &&& found[j]@ == row_of(name, group_of(all, name))
                    },
                forall|g: int|
                    0 <= g < k && (#[trigger] self.groups[g]).entries.len() >= 2 ==> report_rows(
                        found@,
                    ).contains(row_of(self.groups[g].name@, group_of(all, self.groups[g].name@))),
                forall|i: int, j: int|
                    0 <= i < j < found.len() ==> (#[trigger] found[i])@.seq_name != (
                    #[trigger] found[j])@.seq_name,
            decreases self.groups.len() - k,
        {
            let group = &self.groups[k];
            let ghost rows_before = report_rows(found@);
            if group.entries.len() >= 2 {
                match summarize_group(group.name.clone(), &group.entries) {
                    Some(row) => {
                        found.push(row);
                        proof {
                            let rows_now = report_rows(found@);
                            assert(rows_now =~= rows_before.push(row@));
                            assert(rows_now[rows_before.len() as int] == row@);
                            assert forall|g: int|
                                0 <= g < k + 1 && (#[trigger] self.groups[g]).entries.len()
                                    >= 2 implies rows_now.contains(
                                row_of(self.groups[g].name@, group_of(all, self.groups[g].name@)),
                            ) by {
                                let wanted = row_of(
                                    self.groups[g].name@,
                                    group_of(all, self.groups[g].name@),
                                );
                                if g < k {
                                    let j = choose|j: int|
                                        0 <= j < rows_before.len() && rows_before[j] == wanted;
                                    assert(rows_now[j] == wanted);
                                }
                            }
                        }
                    },
                    None => {},
                }
            }
            k += 1;
        }
        let ranking = rank_rows(found);
        proof {
            broadcast use {group_to_multiset_ensures, vstd::multiset::group_multiset_axioms};

            let unranked = report_rows(found@);
            let rows = report_rows(ranking@);
            assert forall|i: int, j: int| 0 <= i < unranked.len() && 0 <= j < unranked.len() && i
                != j implies unranked[i] != unranked[j] by {
                assert(found[i]@ == unranked[i] && found[j]@ == unranked[j]);
            }
            unranked.lemma_multiset_has_no_duplicates();
            rows.lemma_multiset_has_no_duplicates_conv();
            assert forall|i: int| 0 <= i < rows.len() implies {
                let name = (#[trigger] rows[i]).seq_name;
                group_of(all, name).len() >= 2 && rows[i] == row_of(name, group_of(all, name))
            } by {
                assert(rows.contains(rows[i]));
                assert(rows.to_multiset().count(rows[i]) > 0);
                assert(unranked.to_multiset().count(rows[i]) > 0);
                assert(unranked.contains(rows[i]));
                let j = choose|j: int| 0 <= j < unranked.len() && unranked[j] == rows[i];
                assert(found[j]@ == unranked[j]);
            }
            assert forall|name: Seq<char>| (#[trigger] group_of(all, name)).len()
                >= 2 implies rows.contains(row_of(name, group_of(all, name))) by {
                lemma_group_members(all, name);
                let i = choose|i: int| 0 <= i < all.len() && (#[trigger] all[i]).seq_name == name;
                assert(self.index@.contains_key(all[i].seq_name));
                let g = self.index@[name] as int;
                assert(self.groups[g].name@ == name);
                assert(records(self.groups[g].entries@).len() == self.groups[g].entries.len());
                let row = row_of(name, group_of(all, name));
                assert(unranked.contains(row));
                assert(unranked.to_multiset().count(row) > 0);
                assert(rows.to_multiset().count(row) > 0);
            }
            assert forall|i: int, j: int| 0 <= i < j < rows.len() implies ranks_before(
                #[trigger] rows[i],
                #[trigger] rows[j],
            ) by {
                lemma_ranks_total(rows[i], rows[j]);
                if rows[i].seq_name == rows[j].seq_name {
                    assert(rows[i] == rows[j]);
                }
            }
            lemma_occurrences_account(rows, all);
        }
        ranking
    }
}

/// The one that gathers what the parsing of the lines gives, in the order
/// in which it comes: records, until a line fails. From the first failure
/// on nothing more is taken in, and the end gives that failure and no row.
pub struct Aggregator {
    bookkeeping: Bookkeeping,
    failure: Option<ParseError>,
}

impl Aggregator {
    /// The records are kept as the bookkeeping asks.
    pub closed spec fn wf(&self) -> bool {
        self.bookkeeping.wf()
    }

    /// The records taken in, in the order in which they came.
    pub closed spec fn records(&self) -> Seq<NormalizedRecord> {
        self.bookkeeping@
    }

    /// The first failure that came, if one did.
    pub closed spec fn failure(&self) -> Option<ParseError> {
        self.failure
    }

    /// An aggregator that has seen nothing.
    pub fn new() -> (fresh: Aggregator)
        ensures
            fresh.wf(),
            fresh.records() == Seq::<NormalizedRecord>::empty(),
            fresh.failure() is None,
    {
        Aggregator { bookkeeping: Bookkeeping::new(), failure: None }
    }

    /// Takes what the parsing of one line gave. Before any failure a record
    /// is taken in and a failure is kept; after one, nothing changes.
    pub fn accept(&mut self, outcome: Result<InternalEntry, ParseError>)
        requires
            old(self).wf(),
        ensures
            final(self).wf(),
            old(self).failure() is Some ==> final(self).records() == old(self).records()
                && final(self).failure() == old(self).failure(),
            old(self).failure() is None ==> match outcome {
                Ok(entry) => final(self).records() == old(self).records().push(entry@)
                    && final(self).failure() is None,
                Err(error) => final(self).failure() == Some(error) && final(self).records()
                    == old(self).records(),
            },
    {
        if self.failure.is_none() {
            match outcome {
                Ok(entry) => {
                    self.bookkeeping.insert(entry);
                },
                Err(error) => {
                    self.failure = Some(error);
                },
            }
        }
    }

    /// Whether a failure came.
    pub fn has_failed(&self) -> (failed: bool)
        ensures
            failed == self.failure() is Some,
    {
        self.failure.is_some()
    }

    /// The end of the run: the first failure, where one came, and otherwise
    /// the report of the records taken in.
    pub fn finish(self) -> (outcome: Result<Vec<OutputEntry>, ParseError>)
        requires
            self.wf(),
        ensures
            match outcome {
                Ok(rows) => {
                    &&& self.failure() is None
                    &&& is_report(report_rows(rows@), self.records())
                    &&& total_occurrences(report_rows(rows@)) + singleton_names(
                        self.records(),
                    ).len() == self.records().len()
                },
                Err(error) => self.failure() == Some(error),
            },
    {
        match self.failure {
            Some(error) => Err(error),
            None => Ok(self.bookkeeping.report()),
        }
    }
}

} // verus!
