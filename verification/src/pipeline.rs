//! From the fetched records to the output groups.

use vstd::assert_by_contradiction;
use vstd::prelude::*;
use vstd::seq_lib::*;
use crate::error::PipelineError;
use crate::models::{Group, OutputCharacter, RawCharacter, Record};
use crate::text::text_lt;
use crate::sorter::{
    in_two_runs, is_arrangement_of, lacks_sort_key, lemma_arrangement_is_unique,
    some_lacks_sort_key, sort_characters,
};
use crate::utils::{
    extract_gender, gender_occurs, is_gender_list, lemma_gender_list_is_unique, members,
    numeric_run, of_gender, sort_by_gender,
};

verus! {

/// The genders of the groups, in the order of the groups.
pub open spec fn group_genders(groups: Seq<Group>) -> Seq<Seq<char>> {
    groups.map_values(|g: Group| g.gender)
}

/// `group` holds the records of its gender out of `records`, all of them,
/// in group order.
pub open spec fn is_group_of(group: Group, records: Seq<Record>) -> bool {
    let of_this_gender = members(records, group.gender);
    &&& is_arrangement_of(group.characters, of_this_gender)
    &&& in_two_runs(group.characters, numeric_run(of_this_gender).len() as int)
}

/// `groups` is the grouping of `records`: one group for each gender that
/// occurs, the groups in ascending order of their genders, and each group
/// with the records of its gender in group order.
pub open spec fn is_grouping_of(groups: Seq<Group>, records: Seq<Record>) -> bool {
    &&& is_gender_list(group_genders(groups), records)
    &&& forall|i: int| 0 <= i < groups.len() ==> is_group_of(#[trigger] groups[i], records)
}

/// Some record that belongs to a group can be placed in neither of its runs.
pub open spec fn some_member_lacks_sort_key(records: Seq<Record>) -> bool {
    exists|i: int|
        0 <= i < records.len() && (#[trigger] records[i]).gender is Some && lacks_sort_key(
            records[i],
        )
}

/// A record of a gender is among the members of that gender.
proof fn lemma_member(records: Seq<Record>, i: int, gender: Seq<char>)
    requires
        0 <= i < records.len(),
        records[i].has_gender(gender),
    ensures
        members(records, gender).contains(records[i]),
{
    records.lemma_filter_contains(of_gender(gender), i);
}

/// A member of a gender is a record of that gender.
proof fn lemma_member_is_record(records: Seq<Record>, gender: Seq<char>, k: int) -> (i: int)
    requires
        0 <= k < members(records, gender).len(),
    ensures
        0 <= i < records.len(),
        records[i] == members(records, gender)[k],
        records[i].has_gender(gender),
{
    let member = members(records, gender)[k];
    records.lemma_filter_pred(of_gender(gender), k);
    assert(members(records, gender).contains(member));
    records.lemma_filter_contains_rev(of_gender(gender), member);
    choose|i: int| 0 <= i < records.len() && records[i] == member
}

/// Groups the records by gender and orders each group.
///
/// The result has one group for each gender that occurs among the records,
/// in ascending order of the gender texts.  A group holds every record of
/// its gender, first those with a numeric height in ascending order of that
/// number, then the others in ascending order of their names, ties in the
/// order in which they came.  Records without a gender are in no group.
///
/// Fails with [`PipelineError::Data`] exactly when some record with a gender
/// has neither a numeric height nor a name; no partial grouping is returned.
pub fn group_characters(characters: &[RawCharacter]) -> (result: Result<
    Vec<OutputCharacter>,
    PipelineError,
>)
    ensures
        match result {
            Ok(groups) => {
                &&& !some_member_lacks_sort_key(characters.deep_view())
                &&& is_grouping_of(groups.deep_view(), characters.deep_view())
            },
            Err(error) => error == PipelineError::Data && some_member_lacks_sort_key(
                characters.deep_view(),
            ),
        },
{
    let ghost records = characters.deep_view();
    let genders: Vec<String> = match extract_gender(characters) {
        Ok(genders) => genders,
        Err(error) => {
            return Err(error);
        },
    };
    let mut groups: Vec<OutputCharacter> = Vec::new();
    let mut i: usize = 0;
    while i < genders.len()
        invariant
            i <= genders.len(),
            records == characters.deep_view(),
            is_gender_list(genders.deep_view(), records),
            groups.len() == i,
            forall|k: int|
                0 <= k < i ==> {
                    &&& (#[trigger] groups.deep_view()[k]).gender == genders.deep_view()[k]
                    &&& is_group_of(groups.deep_view()[k], records)
                    &&& !some_lacks_sort_key(members(records, genders.deep_view()[k]))
                },
        decreases genders.len() - i,
    {
        let gender: &String = &genders[i];
        let ghost before = groups.deep_view();
        assert(gender@ == genders.deep_view()[i as int]);
        let selected: Vec<RawCharacter> = match sort_by_gender(characters, gender.as_str()) {
            Ok(selected) => selected,
            Err(error) => {
                return Err(error);
            },
        };
        let sorted: Vec<RawCharacter> = match sort_characters(selected.as_slice()) {
            Ok(sorted) => sorted,
            Err(error) => {
                proof {
                    let chosen = members(records, gender@);
                    let k = choose|k: int|
                        0 <= k < chosen.len() && lacks_sort_key(#[trigger] chosen[k]);
                    let j = lemma_member_is_record(records, gender@, k);
                    assert(records[j].gender is Some);
                }
                return Err(error);
            },
        };
        let group = OutputCharacter { gender: gender.clone(), characters: sorted };
        groups.push(group);
        proof {
            assert(groups.deep_view() =~= before.push(group@));
        }
        i += 1;
    }
    proof {
        let made = groups.deep_view();
        assert(group_genders(made) =~= genders.deep_view());
        assert_by_contradiction!(!some_member_lacks_sort_key(records), {
            let j = choose|j: int|
                0 <= j < records.len() && (#[trigger] records[j]).gender is Some
                    && lacks_sort_key(records[j]);
            let gender = records[j].gender->0;
            assert(records[j].has_gender(gender));
            assert(gender_occurs(records, gender));
            assert(genders.deep_view().contains(gender));
            let k = choose|k: int|
                0 <= k < genders.deep_view().len() && genders.deep_view()[k] == gender;
            assert(made[k].gender == gender);
            lemma_member(records, j, gender);
            let chosen = members(records, gender);
            let m = choose|m: int| 0 <= m < chosen.len() && chosen[m] == records[j];
            assert(lacks_sort_key(chosen[m]));
        });
    }
    Ok(groups)
}

/// The records of all the groups, group after group.
pub open spec fn all_characters(groups: Seq<Group>) -> Seq<Record> {
    groups.map_values(|g: Group| g.characters).flatten()
}

/// The test for the records that have a gender.
pub open spec fn is_gendered() -> spec_fn(Record) -> bool {
    |r: Record| r.gender is Some
}

/// The records that have a gender, in the order in which they came.
pub open spec fn gendered(records: Seq<Record>) -> Seq<Record> {
    records.filter(is_gendered())
}

/// One of the first `m` groups is of the given gender.
pub open spec fn gender_listed(groups: Seq<Group>, m: int, gender: Seq<char>) -> bool {
    exists|i: int| 0 <= i < m && (#[trigger] groups[i]).gender == gender
}

/// A selection holds a record as often as the whole does where the test
/// keeps the record, and not at all where it does not.
proof fn lemma_count_in_selection(records: Seq<Record>, test: spec_fn(Record) -> bool, v: Record)
    ensures
        records.filter(test).to_multiset().count(v) == if test(v) {
            records.to_multiset().count(v)
        } else {
            0
        },
    decreases records.len(),
{
    broadcast use vstd::multiset::group_multiset_axioms;

    if records.len() == 0 {
        reveal(Seq::filter);
        assert(records.filter(test) =~= records);
        records.to_multiset_ensures();
    } else {
        let init = records.drop_last();
        let last = records.last();
        lemma_count_in_selection(init, test, v);
        assert(records =~= init.push(last));
        init.lemma_filter_push(last, test);
        to_multiset_build(init, last);
        to_multiset_build(init.filter(test), last);
    }
}

/// How often the first `m` groups hold a record: as often as the records do
/// where a group of its gender is among them, and not at all otherwise.
proof fn lemma_count_in_groups(groups: Seq<Group>, records: Seq<Record>, m: int, v: Record)
    requires
        is_grouping_of(groups, records),
        0 <= m <= groups.len(),
    ensures
        all_characters(groups.take(m)).to_multiset().count(v) == if v.gender is Some
            && gender_listed(groups, m, v.gender->0) {
            records.to_multiset().count(v)
        } else {
            0
        },
    decreases m,
{
    broadcast use vstd::multiset::group_multiset_axioms;

    let parts = |g: Group| g.characters;
    if m == 0 {
        assert(groups.take(0).map_values(parts) =~= Seq::<Seq<Record>>::empty());
        assert(all_characters(groups.take(0)) =~= Seq::<Record>::empty());
        Seq::<Record>::empty().to_multiset_ensures();
    } else {
        let group = groups[m - 1];
        let before = groups.take(m - 1);
        lemma_count_in_groups(groups, records, m - 1, v);
        assert(groups.take(m) =~= before.push(group));
        assert(groups.take(m).map_values(parts) =~= before.map_values(parts).push(
            group.characters,
        ));
        before.map_values(parts).lemma_flatten_push(group.characters);
        lemma_multiset_commutative(all_characters(before), group.characters);
        assert(is_group_of(group, records));
        lemma_count_in_selection(records, of_gender(group.gender), v);
        if v.has_gender(group.gender) {
            if gender_listed(groups, m - 1, group.gender) {
                let i = choose|i: int|
                    0 <= i < m - 1 && (#[trigger] groups[i]).gender == group.gender;
                assert(group_genders(groups)[i] == groups[i].gender);
                assert(group_genders(groups)[m - 1] == group.gender);
                assert(text_lt(group_genders(groups)[i], group_genders(groups)[m - 1]));
            }
            assert(gender_listed(groups, m, group.gender));
        } else if v.gender is Some {
            if gender_listed(groups, m, v.gender->0) {
                let i = choose|i: int| 0 <= i < m && (#[trigger] groups[i]).gender == v.gender->0;
                assert(i < m - 1);
                assert(gender_listed(groups, m - 1, v.gender->0));
            }
        }
    }
}

/// The groups hold exactly the records that have a gender: each as often as
/// it came, none twice over, none left out, and no record without a gender.
pub proof fn lemma_groups_hold_the_gendered(groups: Seq<Group>, records: Seq<Record>)
    requires
        is_grouping_of(groups, records),
    ensures
        all_characters(groups).to_multiset() == gendered(records).to_multiset(),
{
    broadcast use vstd::multiset::group_multiset_axioms;

    assert(groups.take(groups.len() as int) =~= groups);
    assert forall|v: Record|
        all_characters(groups).to_multiset().count(v) == gendered(records).to_multiset().count(
            v,
        ) by {
        lemma_count_in_groups(groups, records, groups.len() as int, v);
        lemma_count_in_selection(records, is_gendered(), v);
        if v.gender is Some && !gender_listed(groups, groups.len() as int, v.gender->0) {
            let gender = v.gender->0;
            assert_by_contradiction!(records.to_multiset().count(v) == 0, {
                to_multiset_contains(records, v);
                let i = choose|i: int| 0 <= i < records.len() && records[i] == v;
                assert(records[i].has_gender(gender));
                assert(gender_occurs(records, gender));
                assert(group_genders(groups).contains(gender));
                let k = choose|k: int|
                    0 <= k < group_genders(groups).len() && group_genders(groups)[k] == gender;
                assert(groups[k].gender == gender);
            });
        }
    }
    assert(all_characters(groups).to_multiset() =~= gendered(records).to_multiset());
}

/// Records have one grouping only.  Grouping the same records again gives
/// the same groups, with the same records in the same places.
pub proof fn lemma_grouping_is_unique(a: Seq<Group>, b: Seq<Group>, records: Seq<Record>)
    requires
        is_grouping_of(a, records),
        is_grouping_of(b, records),
    ensures
        a == b,
{
    lemma_gender_list_is_unique(group_genders(a), group_genders(b), records);
    assert(a.len() == group_genders(a).len());
    assert(b.len() == group_genders(b).len());
    assert forall|i: int| 0 <= i < a.len() implies a[i] == b[i] by {
        assert(a[i].gender == group_genders(a)[i]);
        assert(b[i].gender == group_genders(b)[i]);
        assert(is_group_of(a[i], records));
        assert(is_group_of(b[i], records));
        lemma_arrangement_is_unique(
            a[i].characters,
            b[i].characters,
            members(records, a[i].gender),
        );
    }
    assert(a =~= b);
}

} // verus!
