use crate::utils::text::{
    lemma_text_lt_irreflexive, lemma_text_lt_total, lemma_text_lt_transitive,
    lemma_text_order_total, text_before, text_lt, text_order,
};
use vstd::prelude::*;
use vstd::relations::sorted_by;
use vstd::seq_lib::{group_to_multiset_ensures, lemma_sorted_unique, seq_to_set_is_finite};
use vstd::string::StringExecFns;

verus! {

/// The texts that a sequence of strings holds.
pub open spec fn texts(v: Seq<String>) -> Seq<Seq<char>> {
    v.map_values(|s: String| s@)
}

/// Each text stands strictly before all that follow it.
pub open spec fn ascending(list: Seq<Seq<char>>) -> bool {
    forall|i: int, j: int| 0 <= i < j < list.len() ==> text_lt(#[trigger] list[i], #[trigger] list[j])
}

/// The texts of a finite set in ascending order.
pub open spec fn sorted_texts(values: Set<Seq<char>>) -> Seq<Seq<char>> {
    values.to_sorted_seq(text_order())
}

/// The texts of `list` with `sep` between each two neighbours.
pub open spec fn joined(list: Seq<Seq<char>>, sep: Seq<char>) -> Seq<char>
    decreases list.len(),
{
    if list.len() == 0 {
        Seq::empty()
    } else if list.len() == 1 {
        list[0]
    } else {
        joined(list.drop_last(), sep) + sep + list.last()
    }
}

proof fn lemma_to_seq_no_duplicates(s: Set<Seq<char>>)
    requires
        s.finite(),
    ensures
        s.to_seq().no_duplicates(),
        s.to_seq().to_set() == s,
    decreases s.len(),
{
    s.lemma_to_seq_to_set_id();
    if s.len() != 0 {
        let x = s.choose();
        let rest = s.remove(x).to_seq();
        lemma_to_seq_no_duplicates(s.remove(x));
        assert(!rest.contains(x)) by {
            if rest.contains(x) {
                assert(rest.to_set().contains(x));
            }
        }
        assert(s.to_seq() =~= seq![x] + rest);
        assert forall|i: int, j: int| 0 <= i < j < s.to_seq().len() implies s.to_seq()[i]
            != s.to_seq()[j] by {
            if i == 0 {
                assert(rest.contains(rest[j - 1]));
            } else {
                assert(rest[i - 1] != rest[j - 1]);
            }
        }
    }
}

proof fn lemma_same_set_same_multiset(a: Seq<Seq<char>>, b: Seq<Seq<char>>)
    requires
        a.no_duplicates(),
        b.no_duplicates(),
        a.to_set() == b.to_set(),
    ensures
        a.to_multiset() == b.to_multiset(),
{
    broadcast use group_to_multiset_ensures;

    a.lemma_multiset_has_no_duplicates();
    b.lemma_multiset_has_no_duplicates();
    assert forall|x: Seq<char>| a.to_multiset().count(x) == b.to_multiset().count(x) by {
        assert(a.contains(x) <==> a.to_set().contains(x));
        assert(b.contains(x) <==> b.to_set().contains(x));
        if a.contains(x) {
            assert(a.to_multiset().contains(x));
            assert(b.to_multiset().contains(x));
        } else {
            assert(a.to_multiset().count(x) == 0);
            assert(b.to_multiset().count(x) == 0);
        }
    }
    assert(a.to_multiset() =~= b.to_multiset());
}

proof fn lemma_ascending_facts(list: Seq<Seq<char>>)
    requires
        ascending(list),
    ensures
        list.no_duplicates(),
        sorted_by(list, text_order()),
{
    assert forall|i: int, j: int| 0 <= i < list.len() && 0 <= j < list.len() && i != j implies list[i]
        != list[j] by {
        lemma_text_lt_irreflexive(list[i]);
        if i < j {
            assert(text_lt(list[i], list[j]));
        } else {
            assert(text_lt(list[j], list[i]));
        }
    }
    assert forall|i: int, j: int| 0 <= i < j < list.len() implies #[trigger] text_order()(
        list[i],
        list[j],
    ) by {
        assert(text_lt(list[i], list[j]));
        lemma_text_lt_total(list[i], list[j]);
    }
}

/// The ascending list of a finite set holds each of its texts once and no
/// other: it is as long as the set is large.
pub proof fn lemma_sorted_texts(values: Set<Seq<char>>)
    requires
        values.finite(),
    ensures
        ascending(sorted_texts(values)),
        sorted_texts(values).no_duplicates(),
        sorted_texts(values).to_set() == values,
        sorted_texts(values).len() == values.len(),
{
    broadcast use group_to_multiset_ensures;

    let t = values.to_seq();
    let l = sorted_texts(values);
    lemma_to_seq_no_duplicates(values);
    lemma_text_order_total();
    t.lemma_sort_by_ensures(text_order());
    t.lemma_multiset_has_no_duplicates();
    l.lemma_multiset_has_no_duplicates_conv();
    assert forall|x: Seq<char>| l.to_set().contains(x) <==> values.contains(x) by {
        assert(l.contains(x) <==> l.to_multiset().count(x) > 0);
        assert(t.contains(x) <==> t.to_multiset().count(x) > 0);
        assert(t.to_set().contains(x) <==> t.contains(x));
    }
    assert(l.to_set() =~= values);
    l.unique_seq_to_set();
    assert forall|i: int, j: int| 0 <= i < j < l.len() implies text_lt(
        #[trigger] l[i],
        #[trigger] l[j],
    ) by {
        assert(text_order()(l[i], l[j]));
        lemma_text_lt_total(l[i], l[j]);
    }
}

/// An ascending sequence is the ascending list of the set of its texts.
pub proof fn lemma_ascending_is_sorted_texts(list: Seq<Seq<char>>)
    requires
        ascending(list),
    ensures
        list == sorted_texts(list.to_set()),
{
    let values = list.to_set();
    seq_to_set_is_finite(list);
    lemma_sorted_texts(values);
    lemma_ascending_facts(list);
    lemma_ascending_facts(sorted_texts(values));
    lemma_same_set_same_multiset(list, sorted_texts(values));
    lemma_text_order_total();
    lemma_sorted_unique(list, sorted_texts(values), text_order());
}

/// The place of the first text of `list` that does not stand before `x`.
fn lower_bound(list: &Vec<String>, x: &str) -> (pos: usize)
    requires
        ascending(texts(list@)),
    ensures
        pos <= list.len(),
        forall|i: int| 0 <= i < pos ==> text_lt(#[trigger] list[i]@, x@),
        forall|i: int| pos <= i < list.len() ==> !text_lt(#[trigger] list[i]@, x@),
{
    let mut lo: usize = 0;
    let mut hi: usize = list.len();
    while lo < hi
        invariant
            lo <= hi <= list.len(),
            ascending(texts(list@)),
            forall|i: int| 0 <= i < lo ==> text_lt(#[trigger] list[i]@, x@),
            forall|i: int| hi <= i < list.len() ==> !text_lt(#[trigger] list[i]@, x@),
        decreases hi - lo,
    {
        let mid: usize = lo + (hi - lo) / 2;
        let ghost l = texts(list@);
        if text_before(list[mid].as_str(), x) {
            assert forall|i: int| 0 <= i < mid + 1 implies text_lt(#[trigger] list[i]@, x@) by {
                if i < mid {
                    assert(text_lt(l[i], l[mid as int]));
                    lemma_text_lt_transitive(list[i]@, list[mid as int]@, x@);
                }
            }
            lo = mid + 1;
        } else {
            assert forall|i: int| mid <= i < list.len() implies !text_lt(#[trigger] list[i]@, x@) by {
                if mid < i && text_lt(list[i]@, x@) {
                    assert(text_lt(l[mid as int], l[i]));
                    lemma_text_lt_transitive(list[mid as int]@, list[i]@, x@);
                }
            }
            hi = mid;
        }
    }
    lo
}

/// Puts `x` into an ascending list, at its place, unless the list holds it.
fn insert_text(list: &mut Vec<String>, x: &str)
    requires
        ascending(texts(old(list)@)),
    ensures
        ascending(texts(final(list)@)),
        texts(final(list)@).to_set() == texts(old(list)@).to_set().insert(x@),
{
    let pos = lower_bound(list, x);
    let ghost before = texts(list@);
    if pos < list.len() && !text_before(x, list[pos].as_str()) {
        proof {
            lemma_text_lt_total(x@, list[pos as int]@);
            assert(before[pos as int] == x@);
            assert(before.to_set().contains(x@));
            assert(before.to_set().insert(x@) =~= before.to_set());
        }
    } else {
        list.insert(pos, x.to_owned());
        proof {
            let after = texts(list@);
            assert(after =~= before.insert(pos as int, x@));
            assert forall|i: int, j: int| 0 <= i < j < after.len() implies text_lt(
                #[trigger] after[i],
                #[trigger] after[j],
            ) by {
                if j < pos {
                    assert(text_lt(before[i], before[j]));
                } else if j == pos {
                    assert(text_lt(old(list)@[i]@, x@));
                } else if i < pos {
                    assert(text_lt(before[i], before[j - 1]));
                } else if i == pos {
                    assert(!text_lt(old(list)@[j - 1]@, x@));
                    assert(!text_lt(old(list)@[pos as int]@, x@));
                    lemma_text_lt_total(x@, before[j - 1]);
                    if x@ == before[j - 1] && j - 1 > pos {
                        assert(text_lt(before[pos as int], before[j - 1]));
                    }
                } else {
                    assert(text_lt(before[i - 1], before[j - 1]));
                }
            }
            assert forall|t: Seq<char>| after.to_set().contains(t) <==> before.to_set().insert(
                x@,
            ).contains(t) by {
                if after.contains(t) {
                    let i = choose|i: int| 0 <= i < after.len() && after[i] == t;
                    if i < pos {
                        assert(before[i] == t);
                    } else if i > pos {
                        assert(before[i - 1] == t);
                    }
                }
                if before.contains(t) {
                    let i = choose|i: int| 0 <= i < before.len() && before[i] == t;
                    if i < pos {
                        assert(after[i] == t);
                    } else {
                        assert(after[i + 1] == t);
                    }
                }
                if t == x@ {
                    assert(after[pos as int] == t);
                }
            }
            assert(after.to_set() =~= before.to_set().insert(x@));
        }
    }
}

/// The strings of `list`, in their order, with `sep` between each two.
pub fn join_texts(list: &Vec<String>, sep: &str) -> (line: String)
    ensures
        line@ == joined(texts(list@), sep@),
{
    let mut line = String::new();
    let mut i: usize = 0;
    while i < list.len()
        invariant
            i <= list.len(),
            line@ == joined(texts(list@).take(i as int), sep@),
        decreases list.len() - i,
    {
        let ghost head = texts(list@).take(i as int);
        let ghost next = texts(list@).take(i + 1);
        proof {
            assert(next.drop_last() =~= head);
            assert(next.last() == list@[i as int]@);
        }
        if i > 0 {
            line.append(sep);
        } else {
            assert(line@ + list@[i as int]@ =~= list@[i as int]@);
        }
        line.append(list[i].as_str());
        i += 1;
    }
    proof {
        assert(texts(list@).take(list.len() as int) =~= texts(list@));
    }
    line
}

/// A set of texts, kept as the ascending list of its members.
pub struct TextSet {
    list: Vec<String>,
}

impl View for TextSet {
    type V = Set<Seq<char>>;

    /// The texts that the set holds.
    closed spec fn view(&self) -> Set<Seq<char>> {
        texts(self.list@).to_set()
    }
}

impl TextSet {
    /// The list of the members ascends.
    pub closed spec fn wf(&self) -> bool {
        ascending(texts(self.list@))
    }

    /// The set without a member.
    pub fn new() -> (empty: TextSet)
        ensures
            empty.wf(),
            empty@ == Set::<Seq<char>>::empty(),
    {
        let list: Vec<String> = Vec::new();
        assert(texts(list@).to_set() =~= Set::<Seq<char>>::empty());
        TextSet { list }
    }

    /// Makes `text` a member of the set.
    pub fn insert(&mut self, text: &str)
        requires
            old(self).wf(),
        ensures
            final(self).wf(),
            final(self)@ == old(self)@.insert(text@),
    {
        insert_text(&mut self.list, text);
    }

    /// The number of members.
    pub fn len(&self) -> (len: usize)
        requires
            self.wf(),
        ensures
            self@.finite(),
            len == self@.len(),
    {
        proof {
            seq_to_set_is_finite(texts(self.list@));
            lemma_ascending_is_sorted_texts(texts(self.list@));
            lemma_sorted_texts(self@);
        }
        self.list.len()
    }

    /// The members in ascending order.
    pub fn into_sorted(self) -> (list: Vec<String>)
        requires
            self.wf(),
        ensures
            texts(list@) == sorted_texts(self@),
    {
        proof {
            lemma_ascending_is_sorted_texts(texts(self.list@));
        }
        self.list
    }

    /// The members in ascending order, with `sep` between each two.
    pub fn join(&self, sep: &str) -> (line: String)
        requires
            self.wf(),
        ensures
            line@ == joined(sorted_texts(self@), sep@),
    {
        proof {
            lemma_ascending_is_sorted_texts(texts(self.list@));
        }
        join_texts(&self.list, sep)
    }
}

} // verus!
