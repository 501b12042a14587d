//! The order of the records within a group.
//!
//! Records with a numeric height come first, in ascending order of that
//! number; the others follow, in ascending order of their names.  Records of
//! equal rank keep the order in which they came.

use vstd::prelude::*;
use vstd::seq_lib::*;
use crate::models::{RawCharacter, Record};
use crate::text::{
    lemma_text_le_reflexive, lemma_text_le_total, lemma_text_le_transitive, str_le, text_le,
};
use crate::error::PipelineError;
use crate::utils::{
    alphabetic_run, get_characters_with_height, get_characters_with_no_height,
    has_numeric_height, height_of, numeric_run, with_height, without_height,
};

verus! {

/// The name `a` comes no later than the name `b`: by the order of texts,
/// with an absent name before every name.
pub open spec fn name_le(a: Option<Seq<char>>, b: Option<Seq<char>>) -> bool {
    match (a, b) {
        (None, _) => true,
        (Some(_), None) => false,
        (Some(x), Some(y)) => text_le(x, y),
    }
}

/// The record `a` may stand before the record `b` in a group: a numeric
/// height before none, two numeric heights by the numbers, and two records
/// without one by their names.
pub open spec fn comes_before(a: Record, b: Record) -> bool {
    match (a.numeric_height(), b.numeric_height()) {
        (Some(x), Some(y)) => x <= y,
        (Some(_), None) => true,
        (None, Some(_)) => false,
        (None, None) => name_le(a.name, b.name),
    }
}

/// Neither record has to stand before the other.
pub open spec fn same_rank(a: Record, b: Record) -> bool {
    comes_before(a, b) && comes_before(b, a)
}

/// The test for the records of the rank of `r`.
pub open spec fn of_rank(r: Record) -> spec_fn(Record) -> bool {
    |x: Record| same_rank(x, r)
}

/// The records of the rank of `r`, in the order in which `records` has them.
pub open spec fn rank_class(records: Seq<Record>, r: Record) -> Seq<Record> {
    records.filter(of_rank(r))
}

/// No record stands before one that has to come before it.
pub open spec fn ordered(records: Seq<Record>) -> bool {
    forall|i: int, j: int| 0 <= i < j < records.len() ==> comes_before(records[i], records[j])
}

/// `arranged` is `records` in group order: the same records, each as often
/// as before, none standing before one that has to come before it, and those
/// of equal rank in the order in which they came.
pub open spec fn is_arrangement_of(arranged: Seq<Record>, records: Seq<Record>) -> bool {
    &&& arranged.to_multiset() == records.to_multiset()
    &&& ordered(arranged)
    &&& forall|r: Record| #[trigger] rank_class(arranged, r) == rank_class(records, r)
}

/// Every record may stand before itself.
pub proof fn lemma_comes_before_reflexive(a: Record)
    ensures
        comes_before(a, a),
{
    if a.numeric_height() is None {
        if let Some(name) = a.name {
            lemma_text_le_reflexive(name);
        }
    }
}

/// Of two records one may stand before the other.
pub proof fn lemma_comes_before_total(a: Record, b: Record)
    ensures
        comes_before(a, b) || comes_before(b, a),
{
    if a.numeric_height() is None && b.numeric_height() is None {
        if let (Some(x), Some(y)) = (a.name, b.name) {
            lemma_text_le_total(x, y);
        }
    }
}

/// Where `a` may stand before `b` and `b` before `c`, `a` may stand before
/// `c`.
pub proof fn lemma_comes_before_transitive(a: Record, b: Record, c: Record)
    requires
        comes_before(a, b),
        comes_before(b, c),
    ensures
        comes_before(a, c),
{
    if a.numeric_height() is None && c.numeric_height() is None {
        if let (Some(x), Some(y), Some(z)) = (a.name, b.name, c.name) {
            lemma_text_le_transitive(x, y, z);
        }
    }
}

/// Whether `a` may stand before `b` in a group.
pub fn precedes(a: &RawCharacter, b: &RawCharacter) -> (before: bool)
    ensures
        before == comes_before(a@, b@),
{
    match (height_of(a), height_of(b)) {
        (Some(x), Some(y)) => x <= y,
        (Some(_), None) => true,
        (None, Some(_)) => false,
        (None, None) => match (&a.name, &b.name) {
            (None, _) => true,
            (Some(_), None) => false,
            (Some(x), Some(y)) => str_le(x.as_str(), y.as_str()),
        },
    }
}

/// Putting `x` behind the last record that may stand before it keeps an
/// arrangement an arrangement, of the records with `x` added at the end.
proof fn lemma_insert_arranged(arranged: Seq<Record>, records: Seq<Record>, p: int, x: Record)
    requires
        is_arrangement_of(arranged, records),
        0 <= p <= arranged.len(),
        forall|k: int| 0 <= k < p ==> comes_before(#[trigger] arranged[k], x),
        forall|k: int| p <= k < arranged.len() ==> !comes_before(#[trigger] arranged[k], x),
    ensures
        is_arrangement_of(arranged.insert(p, x), records.push(x)),
{
    let grown = arranged.insert(p, x);
    let front = arranged.take(p);
    let back = arranged.skip(p);
    assert(arranged =~= front + back);
    assert(grown =~= front.push(x) + back);
    to_multiset_insert(arranged, p, x);
    to_multiset_build(records, x);
    assert forall|i: int, j: int| 0 <= i < j < grown.len() implies comes_before(
        grown[i],
        grown[j],
    ) by {
        if j < p {
            assert(comes_before(arranged[i], arranged[j]));
        } else if j == p {
            assert(comes_before(arranged[i], x));
        } else if i < p {
            assert(comes_before(arranged[i], arranged[j - 1]));
        } else if i == p {
            assert(!comes_before(arranged[j - 1], x));
            lemma_comes_before_total(arranged[j - 1], x);
        } else {
            assert(comes_before(arranged[i - 1], arranged[j - 1]));
        }
    }
    assert forall|r: Record| #[trigger] rank_class(grown, r) == rank_class(records.push(x), r) by {
        let test = of_rank(r);
        assert(rank_class(arranged, r) == rank_class(records, r));
        Seq::filter_distributes_over_add(front, back, test);
        Seq::filter_distributes_over_add(front.push(x), back, test);
        front.lemma_filter_push(x, test);
        records.lemma_filter_push(x, test);
        if test(x) {
            assert(back.all(|e: Record| !test(e))) by {
                assert forall|k: int| 0 <= k < back.len() implies !test(#[trigger] back[k]) by {
                    assert(back[k] == arranged[p + k]);
                    if same_rank(back[k], r) {
                        lemma_comes_before_transitive(back[k], r, x);
                    }
                }
            }
            back.lemma_all_neg_filter_empty(test);
            assert(back.filter(test) =~= Seq::<Record>::empty());
            assert(front.filter(test).push(x) + back.filter(test) =~= (front.filter(test)
                + back.filter(test)).push(x));
        }
    }
}

/// The characters in group order.  Nothing is lost or made up, and
/// characters of equal rank keep the order in which they came.
pub fn stable_sort(characters: &[RawCharacter]) -> (sorted: Vec<RawCharacter>)
    ensures
        is_arrangement_of(sorted.deep_view(), characters.deep_view()),
{
    let ghost records = characters.deep_view();
    let mut sorted: Vec<RawCharacter> = Vec::new();
    let mut i: usize = 0;
    proof {
        assert(records.take(0) =~= Seq::<Record>::empty());
        assert(sorted.deep_view() =~= Seq::<Record>::empty());
        assert forall|r: Record| #[trigger]
            rank_class(Seq::<Record>::empty(), r) == rank_class(records.take(0), r) by {}
    }
    while i < characters.len()
        invariant
            i <= characters.len(),
            records == characters.deep_view(),
            is_arrangement_of(sorted.deep_view(), records.take(i as int)),
        decreases characters.len() - i,
    {
        let character: RawCharacter = characters[i].clone();
        let ghost before = sorted.deep_view();
        let mut p: usize = sorted.len();
        while p > 0 && !precedes(&sorted[p - 1], &character)
            invariant
                p <= sorted.len(),
                before == sorted.deep_view(),
                forall|k: int| p <= k < before.len() ==> !comes_before(
                    #[trigger] before[k],
                    character@,
                ),
            decreases p,
        {
            p -= 1;
        }
        proof {
            assert forall|k: int| 0 <= k < p implies comes_before(
                #[trigger] before[k],
                character@,
            ) by {
                if k < p - 1 {
                    assert(comes_before(before[k], before[p - 1]));
                    lemma_comes_before_transitive(before[k], before[p - 1], character@);
                }
            }
            lemma_insert_arranged(before, records.take(i as int), p as int, character@);
            assert(records.take(i + 1) =~= records.take(i as int).push(records[i as int]));
            assert(records[i as int] == character@);
        }
        sorted.insert(p, character);
        assert(sorted.deep_view() =~= before.insert(p as int, records[i as int]));
        i += 1;
    }
    assert(records.take(characters.len() as int) =~= records);
    sorted
}

/// The first record of one ordered sequence has the rank of the first
/// record of another, where the two have the same rank classes.
proof fn lemma_heads_of_same_rank(a: Seq<Record>, b: Seq<Record>)
    requires
        ordered(a),
        ordered(b),
        a.len() > 0,
        b.len() > 0,
        forall|r: Record| #[trigger] rank_class(a, r) == rank_class(b, r),
    ensures
        comes_before(b[0], a[0]),
{
    let head = a[0];
    lemma_comes_before_reflexive(head);
    a.lemma_filter_contains(of_rank(head), 0);
    assert(rank_class(a, head) == rank_class(b, head));
    b.lemma_filter_contains_rev(of_rank(head), head);
    let k = choose|k: int| 0 <= k < b.len() && b[k] == head;
    if k > 0 {
        assert(comes_before(b[0], b[k]));
    }
}

/// Two ordered sequences with the same rank classes are the same sequence.
proof fn lemma_ordered_classes_decide(a: Seq<Record>, b: Seq<Record>)
    requires
        ordered(a),
        ordered(b),
        forall|r: Record| #[trigger] rank_class(a, r) == rank_class(b, r),
    ensures
        a == b,
    decreases a.len() + b.len(),
{
    if a.len() == 0 || b.len() == 0 {
        let (empty, other) = if a.len() == 0 {
            (a, b)
        } else {
            (b, a)
        };
        if other.len() > 0 {
            lemma_comes_before_reflexive(other[0]);
            other.lemma_filter_contains(of_rank(other[0]), 0);
            assert(rank_class(a, other[0]) == rank_class(b, other[0]));
            assert(rank_class(empty, other[0]) =~= Seq::<Record>::empty()) by {
                reveal(Seq::filter);
            }
        }
        assert(a =~= b);
    } else {
        let x = a[0];
        let y = b[0];
        let rest_a = a.drop_first();
        let rest_b = b.drop_first();
        assert(a =~= seq![x] + rest_a);
        assert(b =~= seq![y] + rest_b);
        lemma_heads_of_same_rank(a, b);
        lemma_heads_of_same_rank(b, a);
        assert(same_rank(y, x));
        rest_a.lemma_filter_prepend(x, of_rank(x));
        rest_b.lemma_filter_prepend(y, of_rank(x));
        lemma_comes_before_reflexive(x);
        assert(rank_class(a, x) == rank_class(b, x));
        assert(rank_class(a, x)[0] == x);
        assert(rank_class(b, x)[0] == y);
        assert(x == y);
        assert forall|r: Record| #[trigger] rank_class(rest_a, r) == rank_class(rest_b, r) by {
            rest_a.lemma_filter_prepend(x, of_rank(r));
            rest_b.lemma_filter_prepend(x, of_rank(r));
            assert(rank_class(a, r) == rank_class(b, r));
            if of_rank(r)(x) {
                assert(rank_class(rest_a, r) =~= rank_class(a, r).drop_first());
                assert(rank_class(rest_b, r) =~= rank_class(b, r).drop_first());
            } else {
                assert(rank_class(rest_a, r) =~= rank_class(a, r));
                assert(rank_class(rest_b, r) =~= rank_class(b, r));
            }
        }
        assert(ordered(rest_a)) by {
            assert forall|i: int, j: int| 0 <= i < j < rest_a.len() implies comes_before(
                rest_a[i],
                rest_a[j],
            ) by {
                assert(comes_before(a[i + 1], a[j + 1]));
            }
        }
        assert(ordered(rest_b)) by {
            assert forall|i: int, j: int| 0 <= i < j < rest_b.len() implies comes_before(
                rest_b[i],
                rest_b[j],
            ) by {
                assert(comes_before(b[i + 1], b[j + 1]));
            }
        }
        lemma_ordered_classes_decide(rest_a, rest_b);
    }
}

/// Records have one arrangement only: the group order leaves nothing open.
pub proof fn lemma_arrangement_is_unique(a: Seq<Record>, b: Seq<Record>, records: Seq<Record>)
    requires
        is_arrangement_of(a, records),
        is_arrangement_of(b, records),
    ensures
        a == b,
{
    assert forall|r: Record| #[trigger] rank_class(a, r) == rank_class(b, r) by {
        assert(rank_class(a, r) == rank_class(records, r));
        assert(rank_class(b, r) == rank_class(records, r));
    }
    lemma_ordered_classes_decide(a, b);
}

/// The record can be placed in neither run: it has no numeric height to be
/// ordered by, and no name either.
pub open spec fn lacks_sort_key(record: Record) -> bool {
    record.numeric_height() is None && record.name is None
}

/// Some record can be placed in neither run.
pub open spec fn some_lacks_sort_key(records: Seq<Record>) -> bool {
    exists|i: int| 0 <= i < records.len() && lacks_sort_key(#[trigger] records[i])
}

/// `arranged` is two runs, the first of length `n`: the records with a
/// numeric height, ascending by that number, and behind them the records
/// without one, ascending by name.
pub open spec fn in_two_runs(arranged: Seq<Record>, n: int) -> bool {
    &&& 0 <= n <= arranged.len()
    &&& forall|i: int| 0 <= i < n ==> (#[trigger] arranged[i]).numeric_height() is Some
    &&& forall|i: int| n <= i < arranged.len() ==> (#[trigger] arranged[i]).numeric_height() is None
    &&& forall|i: int, j: int|
        0 <= i < j < n ==> (#[trigger] arranged[i]).numeric_height()->0 <= (
        #[trigger] arranged[j]).numeric_height()->0
    &&& forall|i: int, j: int|
        n <= i < j < arranged.len() ==> name_le(
            (#[trigger] arranged[i]).name,
            (#[trigger] arranged[j]).name,
        )
}

/// Every record is in exactly one of the two runs.
pub proof fn lemma_runs_partition(records: Seq<Record>)
    ensures
        numeric_run(records).to_multiset().add(alphabetic_run(records).to_multiset())
            == records.to_multiset(),
    decreases records.len(),
{
    broadcast use vstd::multiset::group_multiset_axioms;

    if records.len() == 0 {
        reveal(Seq::filter);
        assert(numeric_run(records) =~= records);
        assert(alphabetic_run(records) =~= records);
        records.to_multiset_ensures();
        assert(records.to_multiset().add(records.to_multiset()) =~= records.to_multiset());
    } else {
        let init = records.drop_last();
        let last = records.last();
        lemma_runs_partition(init);
        assert(records =~= init.push(last));
        init.lemma_filter_push(last, with_height());
        init.lemma_filter_push(last, without_height());
        to_multiset_build(init, last);
        to_multiset_build(numeric_run(init), last);
        to_multiset_build(alphabetic_run(init), last);
        assert(numeric_run(records).to_multiset().add(alphabetic_run(records).to_multiset())
            =~= records.to_multiset());
    }
}

/// Filtering twice is filtering once by the narrower test.
proof fn lemma_filter_narrower(
    records: Seq<Record>,
    wide: spec_fn(Record) -> bool,
    narrow: spec_fn(Record) -> bool,
)
    requires
        forall|r: Record| #[trigger] narrow(r) ==> wide(r),
    ensures
        records.filter(wide).filter(narrow) == records.filter(narrow),
    decreases records.len(),
{
    if records.len() == 0 {
        reveal(Seq::filter);
    } else {
        let init = records.drop_last();
        let last = records.last();
        lemma_filter_narrower(init, wide, narrow);
        assert(records =~= init.push(last));
        init.lemma_filter_push(last, wide);
        init.lemma_filter_push(last, narrow);
        init.filter(wide).lemma_filter_push(last, narrow);
    }
}

/// Filtering by a test and then by one that it excludes leaves nothing.
proof fn lemma_filter_excluded(
    records: Seq<Record>,
    first: spec_fn(Record) -> bool,
    second: spec_fn(Record) -> bool,
)
    requires
        forall|r: Record| #[trigger] first(r) ==> !second(r),
    ensures
        records.filter(first).filter(second) == Seq::<Record>::empty(),
        records.filter(second).filter(first) == Seq::<Record>::empty(),
    decreases records.len(),
{
    if records.len() == 0 {
        reveal(Seq::filter);
    } else {
        let init = records.drop_last();
        let last = records.last();
        lemma_filter_excluded(init, first, second);
        assert(records =~= init.push(last));
        init.lemma_filter_push(last, first);
        init.lemma_filter_push(last, second);
        init.filter(first).lemma_filter_push(last, second);
        init.filter(second).lemma_filter_push(last, first);
    }
}

/// An arrangement of selected records holds selected records only.
proof fn lemma_arranged_selection(
    arranged: Seq<Record>,
    records: Seq<Record>,
    test: spec_fn(Record) -> bool,
)
    requires
        arranged.to_multiset() == records.filter(test).to_multiset(),
    ensures
        forall|i: int| 0 <= i < arranged.len() ==> test(#[trigger] arranged[i]),
        arranged.len() == records.filter(test).len(),
{
    let chosen = records.filter(test);
    to_multiset_len(arranged);
    to_multiset_len(chosen);
    assert forall|i: int| 0 <= i < arranged.len() implies test(#[trigger] arranged[i]) by {
        to_multiset_contains(arranged, arranged[i]);
        to_multiset_contains(chosen, arranged[i]);
        assert(arranged.contains(arranged[i]));
        let k = choose|k: int| 0 <= k < chosen.len() && chosen[k] == arranged[i];
        records.lemma_filter_pred(test, k);
    }
}

/// The arranged numeric run followed by the arranged alphabetic run is the
/// arrangement of all the records, and it is in two runs.
pub proof fn lemma_runs_compose(records: Seq<Record>, first: Seq<Record>, second: Seq<Record>)
    requires
        is_arrangement_of(first, numeric_run(records)),
        is_arrangement_of(second, alphabetic_run(records)),
    ensures
        is_arrangement_of(first + second, records),
        in_two_runs(first + second, numeric_run(records).len() as int),
{
    let whole = first + second;
    lemma_arranged_selection(first, records, with_height());
    lemma_arranged_selection(second, records, without_height());
    lemma_runs_partition(records);
    lemma_multiset_commutative(first, second);
    assert(whole.to_multiset() == records.to_multiset());
    assert forall|i: int, j: int| 0 <= i < j < whole.len() implies comes_before(
        whole[i],
        whole[j],
    ) by {
        if j < first.len() {
            assert(comes_before(first[i], first[j]));
        } else if i >= first.len() {
            assert(comes_before(second[i - first.len()], second[j - first.len()]));
        } else {
            assert(with_height()(first[i]));
            assert(without_height()(second[j - first.len()]));
        }
    }
    assert forall|r: Record| #[trigger] rank_class(whole, r) == rank_class(records, r) by {
        let test = of_rank(r);
        Seq::filter_distributes_over_add(first, second, test);
        assert(rank_class(first, r) == rank_class(numeric_run(records), r));
        assert(rank_class(second, r) == rank_class(alphabetic_run(records), r));
        if r.numeric_height() is Some {
            lemma_filter_narrower(records, with_height(), test);
            lemma_filter_excluded(records, without_height(), test);
        } else {
            lemma_filter_narrower(records, without_height(), test);
            lemma_filter_excluded(records, with_height(), test);
        }
        assert(rank_class(whole, r) =~= rank_class(records, r));
    }
    let n = first.len() as int;
    assert forall|i: int| 0 <= i < n implies (#[trigger] whole[i]).numeric_height() is Some by {
        assert(with_height()(first[i]));
    }
    assert forall|i: int| n <= i < whole.len() implies (#[trigger] whole[i]).numeric_height()
        is None by {
        assert(without_height()(second[i - n]));
    }
    assert forall|i: int, j: int| 0 <= i < j < n implies (#[trigger] whole[i]).numeric_height()->0
        <= (#[trigger] whole[j]).numeric_height()->0 by {
        assert(comes_before(whole[i], whole[j]));
    }
    assert forall|i: int, j: int| n <= i < j < whole.len() implies name_le(
        (#[trigger] whole[i]).name,
        (#[trigger] whole[j]).name,
    ) by {
        assert(comes_before(whole[i], whole[j]));
    }
}

/// Whether the character can be placed in neither run.
fn is_unsortable(character: &RawCharacter) -> (unsortable: bool)
    ensures
        unsortable == lacks_sort_key(character@),
{
    character.name.is_none() && !has_numeric_height(character)
}

/// Whether some character can be placed in neither run.
fn any_unsortable(characters: &[RawCharacter]) -> (found: bool)
    ensures
        found == some_lacks_sort_key(characters.deep_view()),
{
    let mut i: usize = 0;
    while i < characters.len()
        invariant
            i <= characters.len(),
            forall|k: int| 0 <= k < i ==> !lacks_sort_key(#[trigger] characters.deep_view()[k]),
        decreases characters.len() - i,
    {
        if is_unsortable(&characters[i]) {
            assert(lacks_sort_key(characters.deep_view()[i as int]));
            return true;
        }
        i += 1;
    }
    false
}

/// Orders the records of one group: first those with a numeric height,
/// ascending by that number, then the others, ascending by name; records of
/// equal rank stay in the order in which they came.
///
/// Fails with [`PipelineError::Data`] exactly when some record has neither a
/// numeric height nor a name; nothing is dropped to make the rest sortable.
pub fn sort_characters(characters: &[RawCharacter]) -> (result: Result<
    Vec<RawCharacter>,
    PipelineError,
>)
    ensures
        match result {
            Ok(sorted) => {
                &&& !some_lacks_sort_key(characters.deep_view())
                &&& is_arrangement_of(sorted.deep_view(), characters.deep_view())
                &&& in_two_runs(
                    sorted.deep_view(),
                    numeric_run(characters.deep_view()).len() as int,
                )
            },
            Err(error) => error == PipelineError::Data && some_lacks_sort_key(
                characters.deep_view(),
            ),
        },
{
    if any_unsortable(characters) {
        return Err(PipelineError::Data);
    }
    let numeric: Vec<RawCharacter> = match get_characters_with_height(characters) {
        Ok(selected) => selected,
        Err(error) => {
            return Err(error);
        },
    };
    let others: Vec<RawCharacter> = match get_characters_with_no_height(characters) {
        Ok(selected) => selected,
        Err(error) => {
            return Err(error);
        },
    };
    let mut sorted: Vec<RawCharacter> = stable_sort(numeric.as_slice());
    let mut tail: Vec<RawCharacter> = stable_sort(others.as_slice());
    let ghost first = sorted.deep_view();
    let ghost second = tail.deep_view();
    sorted.append(&mut tail);
    proof {
        assert(sorted.deep_view() =~= first + second);
        lemma_runs_compose(characters.deep_view(), first, second);
    }
    Ok(sorted)
}

} // verus!
