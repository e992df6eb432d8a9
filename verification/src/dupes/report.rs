use crate::dupes::run::{records, report_rows, InternalEntry, NormalizedRecord, OutputEntry, ReportRow};
use crate::utils::text::{
    lemma_text_lt_irreflexive, lemma_text_lt_total, lemma_text_lt_transitive, text_before, text_lt,
};
use crate::utils::text_list::{joined, sorted_texts, texts, TextSet};
use vstd::multiset::Multiset;
use vstd::prelude::*;
use vstd::seq_lib::{group_to_multiset_ensures, lemma_multiset_commutative};

verus! {

/// The fields of a record that a row lists.
#[derive(Clone, Copy, Debug, PartialEq, Eq, Structural)]
pub enum ListedField {
    Accession,
    Date,
    Location,
    Hash,
}

/// The text that `record` holds in `field`.
pub open spec fn field_of(record: NormalizedRecord, field: ListedField) -> Seq<char> {
    match field {
        ListedField::Accession => record.accession,
        ListedField::Date => record.date,
        ListedField::Location => record.location,
        ListedField::Hash => record.seq_hash,
    }
}

/// The distinct texts that the records of `group` hold in `field`.
pub open spec fn field_values(group: Seq<NormalizedRecord>, field: ListedField) -> Set<Seq<char>> {
    group.map_values(|r: NormalizedRecord| field_of(r, field)).to_set()
}

/// What separates the entries of a listed field.
pub open spec fn separator() -> Seq<char> {
    seq![';']
}

/// The distinct texts of `field`, ascending, joined with `;`.
pub open spec fn listed(group: Seq<NormalizedRecord>, field: ListedField) -> Seq<char> {
    joined(sorted_texts(field_values(group, field)), separator())
}

/// The records that carry `name`, in their order.
pub open spec fn group_of(all: Seq<NormalizedRecord>, name: Seq<char>) -> Seq<NormalizedRecord> {
    all.filter(|r: NormalizedRecord| r.seq_name == name)
}

/// The row that reports the records `group` under `name`.
pub open spec fn row_of(name: Seq<char>, group: Seq<NormalizedRecord>) -> ReportRow {
    ReportRow {
        seq_name: name,
        n_name_occurences: group.len(),
        n_unique_seq_hashes: field_values(group, ListedField::Hash).len(),
        accessions: listed(group, ListedField::Accession),
        dates: listed(group, ListedField::Date),
        locations: listed(group, ListedField::Location),
        hashes: listed(group, ListedField::Hash),
    }
}

impl InternalEntry {
    /// The string that the entry holds in `field`.
    pub fn field(&self, field: ListedField) -> (text: &String)
        ensures
            text@ == field_of(self@, field),
    {
        match field {
            ListedField::Accession => &self.accession,
            ListedField::Date => &self.date,
            ListedField::Location => &self.location,
            ListedField::Hash => &self.seq_hash,
        }
    }
}

/// The distinct texts that `entries` hold in `field`.
pub fn distinct(entries: &Vec<InternalEntry>, field: ListedField) -> (set: TextSet)
    ensures
        set.wf(),
        set@ == field_values(records(entries@), field),
{
    let mut set = TextSet::new();
    let ghost values = records(entries@).map_values(|r: NormalizedRecord| field_of(r, field));
    let mut i: usize = 0;
    proof {
        assert(values.take(0).to_set() =~= Set::<Seq<char>>::empty());
    }
    while i < entries.len()
        invariant
            i <= entries.len(),
            values == records(entries@).map_values(|r: NormalizedRecord| field_of(r, field)),
            set.wf(),
            set@ == values.take(i as int).to_set(),
        decreases entries.len() - i,
    {
        let text = entries[i].field(field);
        set.insert(text.as_str());
        proof {
            assert(values.take(i + 1) =~= values.take(i as int).push(text@));
            values.take(i as int).lemma_push_to_set_commute(text@);
        }
        i += 1;
    }
    proof {
        assert(values.take(entries.len() as int) =~= values);
    }
    set
}

/// The distinct strings that `entries` hold in `field`, in ascending order.
pub fn distinct_sorted(entries: &Vec<InternalEntry>, field: ListedField) -> (list: Vec<String>)
    ensures
        texts(list@) == sorted_texts(field_values(records(entries@), field)),
{
    distinct(entries, field).into_sorted()
}

/// The row for the records of one name, where the name has more than one.
pub fn summarize_group(seq_name: String, entries: &Vec<InternalEntry>) -> (row: Option<OutputEntry>)
    ensures
        match row {
            Some(row) => entries.len() >= 2 && row@ == row_of(seq_name@, records(entries@)),
            None => entries.len() <= 1,
        },
{
    let n_name_occurences = entries.len();
    if n_name_occurences <= 1 {
        return None;
    }
    let hashes = distinct(entries, ListedField::Hash);
    let dates = distinct(entries, ListedField::Date);
    let accessions = distinct(entries, ListedField::Accession);
    let locations = distinct(entries, ListedField::Location);
    proof {
        reveal_strlit(";");
        assert(";"@ =~= separator());
    }
    Some(
        OutputEntry {
            seq_name,
            n_name_occurences,
            n_unique_seq_hashes: hashes.len(),
            accessions: accessions.join(";"),
            dates: dates.join(";"),
            locations: locations.join(";"),
            hashes: hashes.join(";"),
        },
    )
}

/// The order of the report: more occurrences first; among rows with as many,
/// more distinct digests first; among those, the name that stands before.
pub open spec fn ranks_before(a: ReportRow, b: ReportRow) -> bool {
    ||| a.n_name_occurences > b.n_name_occurences
    ||| a.n_name_occurences == b.n_name_occurences && a.n_unique_seq_hashes
        > b.n_unique_seq_hashes
    ||| a.n_name_occurences == b.n_name_occurences && a.n_unique_seq_hashes
        == b.n_unique_seq_hashes && text_lt(a.seq_name, b.seq_name)
}

/// No row stands before one that precedes it.
pub open spec fn ranked(rows: Seq<ReportRow>) -> bool {
    forall|i: int, j: int| 0 <= i < j < rows.len() ==> !ranks_before(#[trigger] rows[j], #[trigger] rows[i])
}

/// Each row stands before all that follow it.
pub open spec fn strictly_ranked(rows: Seq<ReportRow>) -> bool {
    forall|i: int, j: int| 0 <= i < j < rows.len() ==> ranks_before(#[trigger] rows[i], #[trigger] rows[j])
}

/// Of two rows, one stands before the other unless they agree in both counts
/// and in the name; never both do.
pub proof fn lemma_ranks_total(a: ReportRow, b: ReportRow)
    ensures
        ranks_before(a, b) || ranks_before(b, a) || (a.n_name_occurences == b.n_name_occurences
            && a.n_unique_seq_hashes == b.n_unique_seq_hashes && a.seq_name == b.seq_name),
        !(ranks_before(a, b) && ranks_before(b, a)),
        !ranks_before(a, a),
{
    lemma_text_lt_total(a.seq_name, b.seq_name);
    lemma_text_lt_irreflexive(a.seq_name);
}

/// The order of the report is transitive, and so is its "not after".
pub proof fn lemma_ranks_transitive(a: ReportRow, b: ReportRow, c: ReportRow)
    ensures
        ranks_before(a, b) && ranks_before(b, c) ==> ranks_before(a, c),
        !ranks_before(b, a) && !ranks_before(c, b) ==> !ranks_before(c, a),
{
    lemma_text_lt_total(a.seq_name, b.seq_name);
    lemma_text_lt_total(b.seq_name, c.seq_name);
    lemma_text_lt_total(a.seq_name, c.seq_name);
    if text_lt(a.seq_name, b.seq_name) && text_lt(b.seq_name, c.seq_name) {
        lemma_text_lt_transitive(a.seq_name, b.seq_name, c.seq_name);
    }
    if text_lt(c.seq_name, a.seq_name) && text_lt(a.seq_name, b.seq_name) {
        lemma_text_lt_transitive(c.seq_name, a.seq_name, b.seq_name);
    }
    if text_lt(b.seq_name, c.seq_name) && text_lt(c.seq_name, a.seq_name) {
        lemma_text_lt_transitive(b.seq_name, c.seq_name, a.seq_name);
    }
}

/// Whether `a` stands before `b` in the report.
pub fn row_ranks_before(a: &OutputEntry, b: &OutputEntry) -> (r: bool)
    ensures
        r == ranks_before(a@, b@),
{
    if a.n_name_occurences != b.n_name_occurences {
        a.n_name_occurences > b.n_name_occurences
    } else if a.n_unique_seq_hashes != b.n_unique_seq_hashes {
        a.n_unique_seq_hashes > b.n_unique_seq_hashes
    } else {
        text_before(a.seq_name.as_str(), b.seq_name.as_str())
    }
}

/// No row stands before one that follows it.
spec fn falling(rows: Seq<ReportRow>) -> bool {
    forall|i: int, j: int| 0 <= i < j < rows.len() ==> !ranks_before(#[trigger] rows[i], #[trigger] rows[j])
}

/// No row of `high` stands before a row of `low`.
spec fn below(low: Seq<ReportRow>, high: Seq<ReportRow>) -> bool {
    forall|i: int, k: int|
        0 <= i < low.len() && 0 <= k < high.len() ==> !ranks_before(#[trigger] high[k], #[trigger] low[i])
}

/// Moving the last row of `from` to the end of `to` keeps the rows that the
/// two hold together, whatever `rest` holds beside them.
proof fn lemma_move_last(from: Seq<ReportRow>, to: Seq<ReportRow>, rest: Multiset<ReportRow>)
    requires
        from.len() > 0,
    ensures
        from.drop_last().to_multiset().add(rest).add(to.push(from.last()).to_multiset())
            == from.to_multiset().add(rest).add(to.to_multiset()),
        rest.add(from.drop_last().to_multiset()).add(to.push(from.last()).to_multiset())
            == rest.add(from.to_multiset()).add(to.to_multiset()),
{
    broadcast use {group_to_multiset_ensures, vstd::multiset::group_multiset_axioms};

    let x = from.last();
    assert(from =~= from.drop_last().push(x));
    assert(from.to_multiset() =~= from.drop_last().to_multiset().insert(x));
    assert(to.push(x).to_multiset() =~= to.to_multiset().insert(x));
    assert(from.drop_last().to_multiset().add(rest).add(to.push(x).to_multiset())
        =~= from.to_multiset().add(rest).add(to.to_multiset()));
    assert(rest.add(from.drop_last().to_multiset()).add(to.push(x).to_multiset()) =~= rest.add(
        from.to_multiset(),
    ).add(to.to_multiset()));
}

/// One ranked vector of the rows of two.
fn merge_ranked(a: Vec<OutputEntry>, b: Vec<OutputEntry>) -> (merged: Vec<OutputEntry>)
    requires
        ranked(report_rows(a@)),
        ranked(report_rows(b@)),
    ensures
        ranked(report_rows(merged@)),
        report_rows(merged@).to_multiset() == report_rows(a@).to_multiset().add(
            report_rows(b@).to_multiset(),
        ),
{
    broadcast use {group_to_multiset_ensures, vstd::multiset::group_multiset_axioms};

    let ghost all = report_rows(a@).to_multiset().add(report_rows(b@).to_multiset());
    let mut a = a;
    let mut b = b;
    let mut back: Vec<OutputEntry> = Vec::new();
    while a.len() > 0 || b.len() > 0
        invariant
            ranked(report_rows(a@)),
            ranked(report_rows(b@)),
            falling(report_rows(back@)),
            below(report_rows(a@), report_rows(back@)),
            below(report_rows(b@), report_rows(back@)),
            report_rows(a@).to_multiset().add(report_rows(b@).to_multiset()).add(
                report_rows(back@).to_multiset(),
            ) == all,
        decreases a.len() + b.len(),
    {
        let ghost ra = report_rows(a@);
        let ghost rb = report_rows(b@);
        let ghost rk = report_rows(back@);
        let from_a = if b.len() == 0 {
            true
        } else if a.len() == 0 {
            false
        } else {
            !row_ranks_before(&a[a.len() - 1], &b[b.len() - 1])
        };
        if from_a {
            let x = a.pop().unwrap();
            back.push(x);
            proof {
                let na = report_rows(a@);
                let nk = report_rows(back@);
                assert(na =~= ra.drop_last());
                assert(nk =~= rk.push(ra.last()));
                lemma_move_last(ra, rk, rb.to_multiset());
                assert forall|i: int, k: int|
                    0 <= i < rb.len() && 0 <= k < nk.len() implies !ranks_before(
                    #[trigger] nk[k],
                    #[trigger] rb[i],
                ) by {
                    if k == rk.len() {
                        lemma_ranks_transitive(rb[i], rb.last(), ra.last());
                    }
                }
            }
        } else {
            let y = b.pop().unwrap();
            back.push(y);
            proof {
                let nb = report_rows(b@);
                let nk = report_rows(back@);
                assert(nb =~= rb.drop_last());
                assert(nk =~= rk.push(rb.last()));
                lemma_move_last(rb, rk, ra.to_multiset());
                assert forall|i: int, k: int|
                    0 <= i < ra.len() && 0 <= k < nk.len() implies !ranks_before(
                    #[trigger] nk[k],
                    #[trigger] ra[i],
                ) by {
                    if k == rk.len() {
                        lemma_ranks_total(ra.last(), rb.last());
                        lemma_ranks_transitive(ra[i], ra.last(), rb.last());
                    }
                }
            }
        }
    }
    let mut merged: Vec<OutputEntry> = Vec::new();
    proof {
        assert(report_rows(a@).to_multiset() =~= Multiset::<ReportRow>::empty());
        assert(report_rows(b@).to_multiset() =~= Multiset::<ReportRow>::empty());
        assert(report_rows(merged@).to_multiset() =~= Multiset::<ReportRow>::empty());
        assert(report_rows(merged@).to_multiset().add(report_rows(back@).to_multiset()) =~= all);
    }
    while back.len() > 0
        invariant
            falling(report_rows(back@)),
            ranked(report_rows(merged@)),
            below(report_rows(merged@), report_rows(back@)),
            report_rows(merged@).to_multiset().add(report_rows(back@).to_multiset()) == all,
        decreases back.len(),
    {
        let ghost rk = report_rows(back@);
        let ghost rm = report_rows(merged@);
        let x = back.pop().unwrap();
        merged.push(x);
        proof {
            let nk = report_rows(back@);
            let nm = report_rows(merged@);
            assert(nk =~= rk.drop_last());
            assert(nm =~= rm.push(rk.last()));
            lemma_move_last(rk, rm, Multiset::empty());
            assert(nm.to_multiset().add(nk.to_multiset()) =~= nk.to_multiset().add(Multiset::empty()).add(
                nm.to_multiset(),
            ));
            assert(rm.to_multiset().add(rk.to_multiset()) =~= rk.to_multiset().add(Multiset::empty()).add(
                rm.to_multiset(),
            ));
        }
    }
    proof {
        assert(report_rows(back@).to_multiset() =~= Multiset::<ReportRow>::empty());
        assert(report_rows(merged@).to_multiset() =~= all);
    }
    merged
}

/// The rows in the order of the report.
pub fn rank_rows(rows: Vec<OutputEntry>) -> (ranking: Vec<OutputEntry>)
    ensures
        ranked(report_rows(ranking@)),
        report_rows(ranking@).to_multiset() == report_rows(rows@).to_multiset(),
    decreases rows.len(),
{
    if rows.len() <= 1 {
        return rows;
    }
    let ghost whole = report_rows(rows@);
    let mut left = rows;
    let right = left.split_off(left.len() / 2);
    proof {
        assert(whole =~= report_rows(left@) + report_rows(right@));
        lemma_multiset_commutative(report_rows(left@), report_rows(right@));
    }
    let left = rank_rows(left);
    let right = rank_rows(right);
    merge_ranked(left, right)
}

/// A record joins the group of its name, at the end, and no other group.
pub proof fn lemma_group_push(all: Seq<NormalizedRecord>, record: NormalizedRecord, name: Seq<char>)
    ensures
        group_of(all.push(record), name) == if record.seq_name == name {
            group_of(all, name).push(record)
        } else {
            group_of(all, name)
        },
{
    all.lemma_filter_push(record, |r: NormalizedRecord| r.seq_name == name);
}

/// The group of a name holds records of that name, and it holds one exactly
/// when some record carries the name.
pub proof fn lemma_group_members(all: Seq<NormalizedRecord>, name: Seq<char>)
    ensures
        forall|i: int| 0 <= i < group_of(all, name).len() ==> (#[trigger] group_of(all, name)[i]).seq_name == name,
        group_of(all, name).len() > 0 <==> exists|i: int| 0 <= i < all.len() && (#[trigger] all[i]).seq_name == name,
{
    let pred = |r: NormalizedRecord| r.seq_name == name;
    let group = group_of(all, name);
    assert forall|i: int| 0 <= i < group.len() implies (#[trigger] group[i]).seq_name == name by {
        all.lemma_filter_pred(pred, i);
    }
    if group.len() > 0 {
        all.lemma_filter_pred(pred, 0);
        assert(group.contains(group[0]));
        all.lemma_filter_contains_rev(pred, group[0]);
        let i = choose|i: int| 0 <= i < all.len() && all[i] == group[0];
        assert(all[i].seq_name == name);
    }
    if exists|i: int| 0 <= i < all.len() && (#[trigger] all[i]).seq_name == name {
        let i = choose|i: int| 0 <= i < all.len() && (#[trigger] all[i]).seq_name == name;
        all.lemma_filter_contains(pred, i);
    }
}

/// What a report of the records `all` is: a row for each name that more than
/// one record carries, made of the records of that name, and no other row;
/// the rows in the order of the report.
pub open spec fn is_report(rows: Seq<ReportRow>, all: Seq<NormalizedRecord>) -> bool {
    &&& strictly_ranked(rows)
    &&& forall|i: int|
        0 <= i < rows.len() ==> {
            let name = (#[trigger] rows[i]).seq_name;
            group_of(all, name).len() >= 2 && rows[i] == row_of(name, group_of(all, name))
        }
    &&& forall|name: Seq<char>|
        (#[trigger] group_of(all, name)).len() >= 2 ==> rows.contains(
            row_of(name, group_of(all, name)),
        )
}

/// The occurrences that the rows count, taken together.
pub open spec fn total_occurrences(rows: Seq<ReportRow>) -> nat
    decreases rows.len(),
{
    if rows.len() == 0 {
        0
    } else {
        total_occurrences(rows.drop_last()) + rows.last().n_name_occurences
    }
}

/// The names that exactly one record carries.
pub open spec fn singleton_names(all: Seq<NormalizedRecord>) -> Set<Seq<char>> {
    Set::new(|name: Seq<char>| group_of(all, name).len() == 1)
}

} // verus!
