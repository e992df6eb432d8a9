use crate::dupes::report::{
    field_of, field_values, group_of, is_report, lemma_group_members, lemma_group_push,
    lemma_ranks_total, ranks_before, row_of, separator, singleton_names, strictly_ranked,
    total_occurrences, ListedField,
};
use crate::dupes::run::{NormalizedRecord, ReportRow};
use crate::utils::text_list::{ascending, joined, lemma_sorted_texts, sorted_texts};
use vstd::prelude::*;
use vstd::seq_lib::{group_to_multiset_ensures, seq_to_set_is_finite};
use vstd::set_lib::lemma_len_subset;

verus! {

/// The text that a row lists for `field`.
pub open spec fn listing(row: ReportRow, field: ListedField) -> Seq<char> {
    match field {
        ListedField::Accession => row.accessions,
        ListedField::Date => row.dates,
        ListedField::Location => row.locations,
        ListedField::Hash => row.hashes,
    }
}

/// No row of a report counts fewer than two occurrences.
pub proof fn lemma_rows_count_duplicates(rows: Seq<ReportRow>, all: Seq<NormalizedRecord>)
    requires
        is_report(rows, all),
    ensures
        forall|i: int| 0 <= i < rows.len() ==> (#[trigger] rows[i]).n_name_occurences >= 2,
{
}

/// In every row of a report the distinct digests are no more than the
/// occurrences.
pub proof fn lemma_distinct_within_occurrences(rows: Seq<ReportRow>, all: Seq<NormalizedRecord>)
    requires
        is_report(rows, all),
    ensures
        forall|i: int|
            0 <= i < rows.len() ==> (#[trigger] rows[i]).n_unique_seq_hashes
                <= rows[i].n_name_occurences,
{
    assert forall|i: int| 0 <= i < rows.len() implies (#[trigger] rows[i]).n_unique_seq_hashes
        <= rows[i].n_name_occurences by {
        let group = group_of(all, rows[i].seq_name);
        let digests = group.map_values(|r: NormalizedRecord| field_of(r, ListedField::Hash));
        digests.lemma_cardinality_of_set();
    }
}

/// Each of the four listed fields of a row of a report is the list of the
/// distinct texts that the records of the row's name hold in that field,
/// joined with `;`: the list ascends, holds no text twice, and is as long as
/// those texts are many.
pub proof fn lemma_listed_fields(
    rows: Seq<ReportRow>,
    all: Seq<NormalizedRecord>,
    i: int,
    field: ListedField,
)
    requires
        is_report(rows, all),
        0 <= i < rows.len(),
    ensures
        ({
            let values = field_values(group_of(all, rows[i].seq_name), field);
            let list = sorted_texts(values);
            &&& listing(rows[i], field) == joined(list, separator())
            &&& ascending(list)
            &&& list.no_duplicates()
            &&& list.to_set() == values
            &&& list.len() == values.len()
        }),
{
    let group = group_of(all, rows[i].seq_name);
    seq_to_set_is_finite(group.map_values(|r: NormalizedRecord| field_of(r, field)));
    lemma_sorted_texts(field_values(group, field));
}

/// Of two neighbouring rows of a report the first counts more occurrences,
/// or as many and no fewer distinct digests.
pub proof fn lemma_rows_descend(rows: Seq<ReportRow>, all: Seq<NormalizedRecord>)
    requires
        is_report(rows, all),
    ensures
        forall|i: int|
            0 <= i && i + 1 < rows.len() ==> {
                let a = #[trigger] rows[i];
                let b = rows[i + 1];
                a.n_name_occurences > b.n_name_occurences || (a.n_name_occurences
                    == b.n_name_occurences && a.n_unique_seq_hashes >= b.n_unique_seq_hashes)
            },
{
    assert forall|i: int| 0 <= i && i + 1 < rows.len() implies {
        let a = #[trigger] rows[i];
        let b = rows[i + 1];
        a.n_name_occurences > b.n_name_occurences || (a.n_name_occurences == b.n_name_occurences
            && a.n_unique_seq_hashes >= b.n_unique_seq_hashes)
    } by {
        assert(ranks_before(rows[i], rows[i + 1]));
    }
}

proof fn lemma_filter_multiset(a: Seq<NormalizedRecord>, p: spec_fn(NormalizedRecord) -> bool)
    ensures
        a.filter(p).to_multiset() == a.to_multiset().filter(p),
    decreases a.len(),
{
    broadcast use {group_to_multiset_ensures, vstd::multiset::group_multiset_axioms};

    if a.len() == 0 {
        reveal(Seq::filter);
        assert(a.filter(p).to_multiset() =~= a.to_multiset().filter(p));
    } else {
        let rest = a.drop_last();
        let x = a.last();
        lemma_filter_multiset(rest, p);
        assert(a =~= rest.push(x));
        rest.lemma_filter_push(x, p);
        assert(a.to_multiset() =~= rest.to_multiset().insert(x));
        assert(a.filter(p).to_multiset() =~= a.to_multiset().filter(p));
    }
}

/// The row of a name does not depend on the order of the records.
pub proof fn lemma_row_unordered(a: Seq<NormalizedRecord>, b: Seq<NormalizedRecord>, name: Seq<char>)
    requires
        a.to_multiset() == b.to_multiset(),
    ensures
        group_of(a, name).len() == group_of(b, name).len(),
        row_of(name, group_of(a, name)) == row_of(name, group_of(b, name)),
{
    broadcast use {group_to_multiset_ensures, vstd::multiset::group_multiset_axioms};

    let p = |r: NormalizedRecord| r.seq_name == name;
    let ga = group_of(a, name);
    let gb = group_of(b, name);
    lemma_filter_multiset(a, p);
    lemma_filter_multiset(b, p);
    assert(ga.to_multiset() == gb.to_multiset());
    assert(ga.len() == gb.len()) by {
        assert(ga.to_multiset().len() == ga.len());
        assert(gb.to_multiset().len() == gb.len());
    }
    assert forall|field: ListedField| field_values(ga, field) == field_values(gb, field) by {
        let f = |r: NormalizedRecord| field_of(r, field);
        assert forall|x: Seq<char>| ga.map_values(f).to_set().contains(x) == gb.map_values(
            f,
        ).to_set().contains(x) by {
            lemma_mapped_member(ga, gb, field, x);
            lemma_mapped_member(gb, ga, field, x);
        }
        assert(field_values(ga, field) =~= field_values(gb, field));
    }
}

proof fn lemma_mapped_member(
    ga: Seq<NormalizedRecord>,
    gb: Seq<NormalizedRecord>,
    field: ListedField,
    x: Seq<char>,
)
    requires
        ga.to_multiset() == gb.to_multiset(),
    ensures
        field_values(ga, field).contains(x) ==> field_values(gb, field).contains(x),
{
    broadcast use {group_to_multiset_ensures, vstd::multiset::group_multiset_axioms};

    if field_values(ga, field).contains(x) {
        let f = |r: NormalizedRecord| field_of(r, field);
        let i = choose|i: int| 0 <= i < ga.map_values(f).len() && ga.map_values(f)[i] == x;
        assert(ga.contains(ga[i]));
        assert(ga.to_multiset().count(ga[i]) > 0);
        assert(gb.to_multiset().count(ga[i]) > 0);
        assert(gb.contains(ga[i]));
        let j = choose|j: int| 0 <= j < gb.len() && gb[j] == ga[i];
        assert(gb.map_values(f)[j] == x);
    }
}

/// Two sequences of rows in the strict order of the report that hold the
/// same rows are one sequence.
pub proof fn lemma_strictly_ranked_unique(a: Seq<ReportRow>, b: Seq<ReportRow>)
    requires
        strictly_ranked(a),
        strictly_ranked(b),
        forall|x: ReportRow| a.contains(x) <==> b.contains(x),
    ensures
        a == b,
    decreases a.len(),
{
    if a.len() == 0 {
        if b.len() > 0 {
            assert(b.contains(b[0]));
        }
        assert(a =~= b);
    } else {
        assert(a.contains(a[0]));
        let k = choose|k: int| 0 <= k < b.len() && b[k] == a[0];
        assert(b.contains(b[0]));
        let m = choose|m: int| 0 <= m < a.len() && a[m] == b[0];
        lemma_ranks_total(a[0], b[0]);
        if k > 0 {
            assert(ranks_before(b[0], b[k]));
            if m > 0 {
                assert(ranks_before(a[0], a[m]));
            }
        }
        assert(a[0] == b[0]);
        let ta = a.drop_first();
        let tb = b.drop_first();
        assert forall|x: ReportRow| ta.contains(x) <==> tb.contains(x) by {
            lemma_ranks_total(x, x);
            if ta.contains(x) {
                let i = choose|i: int| 0 <= i < ta.len() && ta[i] == x;
                assert(ranks_before(a[0], a[i + 1]));
                assert(a.contains(x));
                let j = choose|j: int| 0 <= j < b.len() && b[j] == x;
                assert(tb[j - 1] == x);
            }
            if tb.contains(x) {
                let i = choose|i: int| 0 <= i < tb.len() && tb[i] == x;
                assert(ranks_before(b[0], b[i + 1]));
                assert(b.contains(x));
                let j = choose|j: int| 0 <= j < a.len() && a[j] == x;
                assert(ta[j - 1] == x);
            }
        }
        lemma_strictly_ranked_unique(ta, tb);
        assert(a =~= seq![a[0]] + ta);
        assert(b =~= seq![b[0]] + tb);
    }
}

/// The report is a function of the records, whatever the order in which
/// they come: two reports of the same records, taken in any two orders, are
/// the same rows in the same order.
pub proof fn lemma_report_is_unique(
    first: Seq<ReportRow>,
    a: Seq<NormalizedRecord>,
    second: Seq<ReportRow>,
    b: Seq<NormalizedRecord>,
)
    requires
        is_report(first, a),
        is_report(second, b),
        a.to_multiset() == b.to_multiset(),
    ensures
        first == second,
{
    assert forall|x: ReportRow| first.contains(x) <==> second.contains(x) by {
        if first.contains(x) {
            let i = choose|i: int| 0 <= i < first.len() && first[i] == x;
            lemma_row_unordered(a, b, x.seq_name);
        }
        if second.contains(x) {
            let i = choose|i: int| 0 <= i < second.len() && second[i] == x;
            lemma_row_unordered(a, b, x.seq_name);
        }
    }
    lemma_strictly_ranked_unique(first, second);
}

/// A record without its place in the input.
pub open spec fn content(record: NormalizedRecord) -> NormalizedRecord {
    NormalizedRecord { index: 0, ..record }
}

/// The records without their places in the input.
pub open spec fn contents(all: Seq<NormalizedRecord>) -> Seq<NormalizedRecord> {
    all.map_values(|r: NormalizedRecord| content(r))
}

proof fn lemma_group_of_contents(all: Seq<NormalizedRecord>, name: Seq<char>)
    ensures
        group_of(contents(all), name) == contents(group_of(all, name)),
    decreases all.len(),
{
    if all.len() == 0 {
        lemma_group_members(all, name);
        lemma_group_members(contents(all), name);
        assert(group_of(contents(all), name) =~= contents(group_of(all, name)));
    } else {
        let rest = all.drop_last();
        let record = all.last();
        lemma_group_of_contents(rest, name);
        assert(all =~= rest.push(record));
        assert(contents(all) =~= contents(rest).push(content(record)));
        lemma_group_push(rest, record, name);
        lemma_group_push(contents(rest), content(record), name);
        if record.seq_name == name {
            assert(contents(group_of(rest, name).push(record)) =~= contents(group_of(rest, name)).push(
                content(record),
            ));
        }
    }
}

proof fn lemma_row_of_contents(name: Seq<char>, group: Seq<NormalizedRecord>)
    ensures
        row_of(name, contents(group)) == row_of(name, group),
{
    assert forall|field: ListedField| field_values(contents(group), field) == field_values(
        group,
        field,
    ) by {
        let f = |r: NormalizedRecord| field_of(r, field);
        assert(contents(group).map_values(f) =~= group.map_values(f));
    }
}

/// The report depends neither on the order of the records nor on their
/// places in the input: two reports of records that are the same but for
/// order and places are the same rows in the same order.
pub proof fn lemma_report_ignores_places(
    first: Seq<ReportRow>,
    a: Seq<NormalizedRecord>,
    second: Seq<ReportRow>,
    b: Seq<NormalizedRecord>,
)
    requires
        is_report(first, a),
        is_report(second, b),
        contents(a).to_multiset() == contents(b).to_multiset(),
    ensures
        first == second,
{
    assert forall|name: Seq<char>| group_of(a, name).len() == group_of(b, name).len() && row_of(
        name,
        #[trigger] group_of(a, name),
    ) == row_of(name, group_of(b, name)) by {
        lemma_group_of_contents(a, name);
        lemma_group_of_contents(b, name);
        lemma_row_of_contents(name, group_of(a, name));
        lemma_row_of_contents(name, group_of(b, name));
        lemma_row_unordered(contents(a), contents(b), name);
    }
    assert forall|x: ReportRow| first.contains(x) <==> second.contains(x) by {
        if first.contains(x) {
            let i = choose|i: int| 0 <= i < first.len() && first[i] == x;
            assert(group_of(a, x.seq_name).len() >= 2);
            assert(group_of(b, x.seq_name).len() >= 2);
        }
        if second.contains(x) {
            let i = choose|i: int| 0 <= i < second.len() && second[i] == x;
            assert(group_of(b, x.seq_name).len() >= 2);
            assert(group_of(a, x.seq_name).len() >= 2);
        }
    }
    lemma_strictly_ranked_unique(first, second);
}

/// The records that carry the names of `names`, counted name by name.
spec fn sum_counts(names: Seq<Seq<char>>, all: Seq<NormalizedRecord>) -> nat
    decreases names.len(),
{
    if names.len() == 0 {
        0
    } else {
        sum_counts(names.drop_last(), all) + group_of(all, names.last()).len()
    }
}

/// `names` holds the names that more than one record carries, each once, and
/// no other.
spec fn lists_repeated(names: Seq<Seq<char>>, all: Seq<NormalizedRecord>) -> bool {
    &&& names.no_duplicates()
    &&& forall|i: int| 0 <= i < names.len() ==> group_of(all, #[trigger] names[i]).len() >= 2
    &&& forall|name: Seq<char>| (#[trigger] group_of(all, name)).len() >= 2 ==> names.contains(name)
}

proof fn lemma_sum_counts_same(
    names: Seq<Seq<char>>,
    a: Seq<NormalizedRecord>,
    b: Seq<NormalizedRecord>,
)
    requires
        forall|i: int|
            0 <= i < names.len() ==> group_of(a, #[trigger] names[i]).len() == group_of(
                b,
                names[i],
            ).len(),
    ensures
        sum_counts(names, a) == sum_counts(names, b),
    decreases names.len(),
{
    if names.len() > 0 {
        assert forall|i: int| 0 <= i < names.drop_last().len() implies group_of(
            a,
            #[trigger] names.drop_last()[i],
        ).len() == group_of(b, names.drop_last()[i]).len() by {
            assert(names.drop_last()[i] == names[i]);
        }
        lemma_sum_counts_same(names.drop_last(), a, b);
        assert(names.last() == names[names.len() - 1]);
    }
}

proof fn lemma_sum_counts_without(names: Seq<Seq<char>>, all: Seq<NormalizedRecord>, k: int)
    requires
        0 <= k < names.len(),
    ensures
        sum_counts(names, all) == sum_counts(names.remove(k), all) + group_of(all, names[k]).len(),
    decreases names.len(),
{
    if k == names.len() - 1 {
        assert(names.remove(k) =~= names.drop_last());
    } else {
        lemma_sum_counts_without(names.drop_last(), all, k);
        assert(names.remove(k).drop_last() =~= names.drop_last().remove(k));
        assert(names.remove(k).last() == names.last());
    }
}

proof fn lemma_singleton_names_finite(all: Seq<NormalizedRecord>)
    ensures
        singleton_names(all).finite(),
{
    let carried = all.map_values(|r: NormalizedRecord| r.seq_name);
    seq_to_set_is_finite(carried);
    assert forall|name: Seq<char>| singleton_names(all).contains(name) implies carried.to_set().contains(
        name,
    ) by {
        lemma_group_members(all, name);
        let i = choose|i: int| 0 <= i < all.len() && (#[trigger] all[i]).seq_name == name;
        assert(carried[i] == name);
    }
    lemma_len_subset(singleton_names(all), carried.to_set());
}

/// The records of the names that more than one record carries, and the
/// names that one record alone carries, account for every record.
proof fn lemma_counts_account(names: Seq<Seq<char>>, all: Seq<NormalizedRecord>)
    requires
        lists_repeated(names, all),
    ensures
        sum_counts(names, all) + singleton_names(all).len() == all.len(),
    decreases all.len(),
{
    lemma_singleton_names_finite(all);
    if all.len() == 0 {
        if names.len() > 0 {
            lemma_group_members(all, names[0]);
        }
        assert forall|name: Seq<char>| !singleton_names(all).contains(name) by {
            lemma_group_members(all, name);
        }
        assert(singleton_names(all) =~= Set::<Seq<char>>::empty());
    } else {
        let rest = all.drop_last();
        let record = all.last();
        let name = record.seq_name;
        let before = group_of(rest, name).len();
        assert(all =~= rest.push(record));
        assert forall|other: Seq<char>| group_of(all, other) == if other == name {
            group_of(rest, other).push(record)
        } else {
            #[trigger] group_of(rest, other)
        } by {
            lemma_group_push(rest, record, other);
        }
        lemma_singleton_names_finite(rest);
        if before == 0 {
            assert(lists_repeated(names, rest)) by {
                assert forall|i: int| 0 <= i < names.len() implies group_of(
                    rest,
                    #[trigger] names[i],
                ).len() >= 2 by {
                    assert(group_of(all, names[i]).len() >= 2);
                }
                assert forall|other: Seq<char>| (#[trigger] group_of(rest, other)).len()
                    >= 2 implies names.contains(other) by {
                    assert(group_of(all, other).len() >= 2);
                }
            }
            lemma_counts_account(names, rest);
            assert forall|i: int| 0 <= i < names.len() implies group_of(all, #[trigger] names[i]).len()
                == group_of(rest, names[i]).len() by {
                assert(group_of(all, names[i]).len() >= 2);
            }
            lemma_sum_counts_same(names, all, rest);
            assert(singleton_names(all) =~= singleton_names(rest).insert(name));
        } else if before == 1 {
            assert(group_of(all, name).len() == 2);
            assert(names.contains(name));
            let k = choose|k: int| 0 <= k < names.len() && names[k] == name;
            let fewer = names.remove(k);
            assert(lists_repeated(fewer, rest)) by {
                assert forall|i: int| 0 <= i < fewer.len() implies group_of(
                    rest,
                    #[trigger] fewer[i],
                ).len() >= 2 by {
                    let j = if i < k {
                        i
                    } else {
                        i + 1
                    };
                    assert(fewer[i] == names[j]);
                    assert(group_of(all, names[j]).len() >= 2);
                }
                assert forall|other: Seq<char>| (#[trigger] group_of(rest, other)).len()
                    >= 2 implies fewer.contains(other) by {
                    assert(group_of(all, other).len() >= 2);
                    let j = choose|j: int| 0 <= j < names.len() && names[j] == other;
                    if j < k {
                        assert(fewer[j] == other);
                    } else {
                        assert(fewer[j - 1] == other);
                    }
                }
            }
            lemma_counts_account(fewer, rest);
            assert forall|i: int| 0 <= i < fewer.len() implies group_of(all, #[trigger] fewer[i]).len()
                == group_of(rest, fewer[i]).len() by {
                let j = if i < k {
                    i
                } else {
                    i + 1
                };
                assert(fewer[i] == names[j]);
            }
            lemma_sum_counts_same(fewer, all, rest);
            lemma_sum_counts_without(names, all, k);
            assert(singleton_names(all) =~= singleton_names(rest).remove(name));
            assert(singleton_names(rest).contains(name));
        } else {
            assert(lists_repeated(names, rest)) by {
                assert forall|i: int| 0 <= i < names.len() implies group_of(
                    rest,
                    #[trigger] names[i],
                ).len() >= 2 by {
                    assert(group_of(all, names[i]).len() >= 2);
                }
                assert forall|other: Seq<char>| (#[trigger] group_of(rest, other)).len()
                    >= 2 implies names.contains(other) by {
                    assert(group_of(all, other).len() >= 2);
                }
            }
            lemma_counts_account(names, rest);
            assert(group_of(all, name).len() >= 2);
            assert(names.contains(name));
            let k = choose|k: int| 0 <= k < names.len() && names[k] == name;
            let others = names.remove(k);
            assert forall|i: int| 0 <= i < others.len() implies group_of(
                all,
                #[trigger] others[i],
            ).len() == group_of(rest, others[i]).len() by {
                let j = if i < k {
                    i
                } else {
                    i + 1
                };
                assert(others[i] == names[j]);
            }
            lemma_sum_counts_same(others, all, rest);
            lemma_sum_counts_without(names, all, k);
            lemma_sum_counts_without(names, rest, k);
            assert(singleton_names(all) =~= singleton_names(rest));
        }
    }
}

proof fn lemma_total_is_sum_of_counts(rows: Seq<ReportRow>, all: Seq<NormalizedRecord>)
    requires
        forall|i: int|
            0 <= i < rows.len() ==> (#[trigger] rows[i]).n_name_occurences == group_of(
                all,
                rows[i].seq_name,
            ).len(),
    ensures
        total_occurrences(rows) == sum_counts(rows.map_values(|r: ReportRow| r.seq_name), all),
    decreases rows.len(),
{
    let names = rows.map_values(|r: ReportRow| r.seq_name);
    if rows.len() > 0 {
        assert forall|i: int| 0 <= i < rows.drop_last().len() implies (
        #[trigger] rows.drop_last()[i]).n_name_occurences == group_of(
            all,
            rows.drop_last()[i].seq_name,
        ).len() by {
            assert(rows.drop_last()[i] == rows[i]);
        }
        lemma_total_is_sum_of_counts(rows.drop_last(), all);
        assert(names.drop_last() =~= rows.drop_last().map_values(|r: ReportRow| r.seq_name));
        assert(names.last() == rows.last().seq_name);
        assert(rows.last() == rows[rows.len() - 1]);
    }
}

/// The occurrences that the rows of a report count, together with the names
/// that one record alone carries, are as many as the records.
pub proof fn lemma_occurrences_account(rows: Seq<ReportRow>, all: Seq<NormalizedRecord>)
    requires
        is_report(rows, all),
    ensures
        total_occurrences(rows) + singleton_names(all).len() == all.len(),
{
    let names = rows.map_values(|r: ReportRow| r.seq_name);
    assert(lists_repeated(names, all)) by {
        assert forall|i: int, j: int| 0 <= i < names.len() && 0 <= j < names.len() && i
            != j implies names[i] != names[j] by {
            lemma_ranks_total(rows[i], rows[j]);
            if i < j {
                assert(ranks_before(rows[i], rows[j]));
            } else {
                assert(ranks_before(rows[j], rows[i]));
            }
            if names[i] == names[j] {
                assert(rows[i] == rows[j]);
            }
        }
        assert forall|i: int| 0 <= i < names.len() implies group_of(all, #[trigger] names[i]).len()
            >= 2 by {
            assert(names[i] == rows[i].seq_name);
        }
        assert forall|name: Seq<char>| (#[trigger] group_of(all, name)).len()
            >= 2 implies names.contains(name) by {
            let row = row_of(name, group_of(all, name));
            let i = choose|i: int| 0 <= i < rows.len() && rows[i] == row;
            assert(names[i] == name);
        }
    }
    lemma_counts_account(names, all);
    lemma_total_is_sum_of_counts(rows, all);
}

} // verus!
