//! Partitioning of records: the genders that occur, the records of one
//! gender, and the split by whether the height is a number.

use vstd::prelude::*;
use crate::decimal::{integer_value, parse_i32};
use crate::error::PipelineError;
use crate::models::{clone_text, Character, Profile, RawCharacter, Record};
use crate::text::{
    lemma_text_le_antisymmetric, lemma_text_le_total, lemma_text_lt_transitive, str_eq, str_lt,
    text_lt,
};

verus! {

/// The test for the records of the given gender.
pub open spec fn of_gender(gender: Seq<char>) -> spec_fn(Record) -> bool {
    |r: Record| r.has_gender(gender)
}

/// The test for the records whose height is a number.
pub open spec fn with_height() -> spec_fn(Record) -> bool {
    |r: Record| r.numeric_height() is Some
}

/// The test for the records whose height is absent or no number.
pub open spec fn without_height() -> spec_fn(Record) -> bool {
    |r: Record| r.numeric_height() is None
}

/// The records of the given gender, in the order in which they came.
pub open spec fn members(records: Seq<Record>, gender: Seq<char>) -> Seq<Record> {
    records.filter(of_gender(gender))
}

/// The records whose height is a number, in the order in which they came.
pub open spec fn numeric_run(records: Seq<Record>) -> Seq<Record> {
    records.filter(with_height())
}

/// The records whose height is absent or no number, in the order in which
/// they came.
pub open spec fn alphabetic_run(records: Seq<Record>) -> Seq<Record> {
    records.filter(without_height())
}

/// Some record is of the given gender.
pub open spec fn gender_occurs(records: Seq<Record>, gender: Seq<char>) -> bool {
    exists|i: int| 0 <= i < records.len() && (#[trigger] records[i]).has_gender(gender)
}

/// Each text comes strictly before all that follow it.
pub open spec fn strictly_ascending(texts: Seq<Seq<char>>) -> bool {
    forall|i: int, j: int| 0 <= i < j < texts.len() ==> text_lt(texts[i], texts[j])
}

/// `genders` lists the genders that occur in `records`: each once, in
/// ascending order.
pub open spec fn is_gender_list(genders: Seq<Seq<char>>, records: Seq<Record>) -> bool {
    &&& strictly_ascending(genders)
    &&& forall|g: Seq<char>| genders.contains(g) <==> gender_occurs(records, g)
}

/// Two ascending lists of the same texts are the same list.
pub proof fn lemma_ascending_texts_decide(a: Seq<Seq<char>>, b: Seq<Seq<char>>)
    requires
        strictly_ascending(a),
        strictly_ascending(b),
        forall|t: Seq<char>| a.contains(t) <==> b.contains(t),
    ensures
        a == b,
    decreases a.len() + b.len(),
{
    if a.len() == 0 || b.len() == 0 {
        if a.len() > 0 {
            assert(a.contains(a[0]));
        }
        if b.len() > 0 {
            assert(b.contains(b[0]));
        }
        assert(a =~= b);
    } else {
        let x = a[0];
        let y = b[0];
        assert(a.contains(x));
        assert(b.contains(y));
        let i = choose|i: int| 0 <= i < b.len() && b[i] == x;
        let j = choose|j: int| 0 <= j < a.len() && a[j] == y;
        if x != y {
            assert(text_lt(y, b[i]));
            assert(text_lt(x, a[j]));
            lemma_text_le_antisymmetric(x, y);
        }
        let rest_a = a.drop_first();
        let rest_b = b.drop_first();
        assert forall|t: Seq<char>| rest_a.contains(t) <==> rest_b.contains(t) by {
            if rest_a.contains(t) {
                let k = choose|k: int| 0 <= k < rest_a.len() && rest_a[k] == t;
                assert(a[k + 1] == t);
                assert(text_lt(a[0], a[k + 1]));
                assert(a.contains(t));
                let m = choose|m: int| 0 <= m < b.len() && b[m] == t;
                assert(rest_b[m - 1] == t);
            }
            if rest_b.contains(t) {
                let k = choose|k: int| 0 <= k < rest_b.len() && rest_b[k] == t;
                assert(b[k + 1] == t);
                assert(text_lt(b[0], b[k + 1]));
                assert(b.contains(t));
                let m = choose|m: int| 0 <= m < a.len() && a[m] == t;
                assert(rest_a[m - 1] == t);
            }
        }
        assert(strictly_ascending(rest_a)) by {
            assert forall|i: int, j: int| 0 <= i < j < rest_a.len() implies text_lt(
                rest_a[i],
                rest_a[j],
            ) by {
                assert(text_lt(a[i + 1], a[j + 1]));
            }
        }
        assert(strictly_ascending(rest_b)) by {
            assert forall|i: int, j: int| 0 <= i < j < rest_b.len() implies text_lt(
                rest_b[i],
                rest_b[j],
            ) by {
                assert(text_lt(b[i + 1], b[j + 1]));
            }
        }
        lemma_ascending_texts_decide(rest_a, rest_b);
        assert(a =~= seq![x] + rest_a);
        assert(b =~= seq![y] + rest_b);
    }
}

/// The genders that occur have one list only.
pub proof fn lemma_gender_list_is_unique(
    a: Seq<Seq<char>>,
    b: Seq<Seq<char>>,
    records: Seq<Record>,
)
    requires
        is_gender_list(a, records),
        is_gender_list(b, records),
    ensures
        a == b,
{
    assert forall|t: Seq<char>| a.contains(t) <==> b.contains(t) by {
        assert(a.contains(t) <==> gender_occurs(records, t));
        assert(b.contains(t) <==> gender_occurs(records, t));
    }
    lemma_ascending_texts_decide(a, b);
}

/// Whether `string` is a base-10 literal of an `i32`.
pub fn is_number(string: &str) -> (number: bool)
    ensures
        number == integer_value(string@).is_some(),
{
    parse_i32(string).is_some()
}

/// The character's height as a number, where it is present and a number.
/// This one reading both routes a record to its run and gives the key it is
/// ordered by there.
pub fn height_of(character: &RawCharacter) -> (height: Option<i32>)
    ensures
        match height {
            Some(h) => character@.numeric_height() == Some(h as int),
            None => character@.numeric_height() is None,
        },
{
    match &character.height {
        Some(height) => parse_i32(height.as_str()),
        None => None,
    }
}

impl Character {
    /// The character with its height read as a number, or `None` where the
    /// height is absent or no number.  Name and gender are taken over as
    /// they are.
    pub fn from_raw(raw: &RawCharacter) -> (character: Option<Character>)
        ensures
            match character {
                Some(character) => raw@.numeric_height() is Some && character@ == (Profile {
                    name: raw@.name,
                    height: raw@.numeric_height()->0,
                    gender: raw@.gender,
                }),
                None => raw@.numeric_height() is None,
            },
    {
        match height_of(raw) {
            Some(height) => Some(
                Character {
                    name: clone_text(&raw.name),
                    height,
                    gender: clone_text(&raw.gender),
                },
            ),
            None => None,
        }
    }
}

/// Whether the character's height is present and a number.
pub fn has_numeric_height(character: &RawCharacter) -> (numeric: bool)
    ensures
        numeric == character@.numeric_height().is_some(),
{
    match &character.height {
        Some(height) => is_number(height.as_str()),
        None => false,
    }
}

/// What a selection keeps.
enum Criterion<'a> {
    /// The records of this gender.
    Gender(&'a str),
    /// The records whose height is a number.
    NumericHeight,
    /// The records whose height is absent or no number.
    OtherHeight,
}

impl<'a> Criterion<'a> {
    /// The selection holds the record.
    spec fn keeps(self, record: Record) -> bool {
        match self {
            Criterion::Gender(gender) => record.has_gender(gender@),
            Criterion::NumericHeight => record.numeric_height() is Some,
            Criterion::OtherHeight => record.numeric_height() is None,
        }
    }

    /// Whether the criterion keeps the character.
    fn test(&self, character: &RawCharacter) -> (kept: bool)
        ensures
            kept == self.keeps(character@),
    {
        match self {
            Criterion::Gender(wanted) => match &character.gender {
                Some(gender) => str_eq(gender.as_str(), wanted),
                None => false,
            },
            Criterion::NumericHeight => has_numeric_height(character),
            Criterion::OtherHeight => !has_numeric_height(character),
        }
    }
}

/// Copies of the characters that the criterion holds, in the order in which
/// they came.
fn select(characters: &[RawCharacter], criterion: &Criterion) -> (selected: Vec<RawCharacter>)
    ensures
        selected.deep_view() == characters.deep_view().filter(|r: Record| criterion.keeps(r)),
{
    let ghost records = characters.deep_view();
    let ghost wanted = |r: Record| criterion.keeps(r);
    let mut selected: Vec<RawCharacter> = Vec::new();
    let mut i: usize = 0;
    assert(records.take(0).filter(wanted) =~= Seq::<Record>::empty()) by {
        reveal(Seq::filter);
    }
    while i < characters.len()
        invariant
            i <= characters.len(),
            records == characters.deep_view(),
            wanted == |r: Record| criterion.keeps(r),
            selected.deep_view() == records.take(i as int).filter(wanted),
        decreases characters.len() - i,
    {
        let character: &RawCharacter = &characters[i];
        let ghost before = selected.deep_view();
        proof {
            assert(records.take(i + 1) =~= records.take(i as int).push(records[i as int]));
            records.take(i as int).lemma_filter_push(records[i as int], wanted);
            assert(records[i as int] == character@);
        }
        if criterion.test(character) {
            selected.push(character.clone());
            assert(selected.deep_view() =~= before.push(character@));
        }
        i += 1;
    }
    assert(records.take(characters.len() as int) =~= records);
    selected
}

/// The records whose gender is exactly `gender_string`, in the order in
/// which they came.  The match is by content and case-sensitive; a record
/// without a gender is in no selection.  Never fails.
pub fn sort_by_gender(raw_characters: &[RawCharacter], gender_string: &str) -> (result: Result<
    Vec<RawCharacter>,
    PipelineError,
>)
    ensures
        result matches Ok(selected) && selected.deep_view() == members(
            raw_characters.deep_view(),
            gender_string@,
        ),
{
    let criterion = Criterion::Gender(gender_string);
    let selected: Vec<RawCharacter> = select(raw_characters, &criterion);
    assert((|r: Record| criterion.keeps(r)) =~= of_gender(gender_string@));
    Ok(selected)
}

/// The records whose height is present and a number, in the order in which
/// they came.  Never fails.
pub fn get_characters_with_height(characters: &[RawCharacter]) -> (result: Result<
    Vec<RawCharacter>,
    PipelineError,
>)
    ensures
        result matches Ok(selected) && selected.deep_view() == numeric_run(
            characters.deep_view(),
        ),
{
    let criterion = Criterion::NumericHeight;
    let selected: Vec<RawCharacter> = select(characters, &criterion);
    assert((|r: Record| criterion.keeps(r)) =~= with_height());
    Ok(selected)
}

/// The records whose height is absent or no number, in the order in which
/// they came.  Never fails.
pub fn get_characters_with_no_height(characters: &[RawCharacter]) -> (result: Result<
    Vec<RawCharacter>,
    PipelineError,
>)
    ensures
        result matches Ok(selected) && selected.deep_view() == alphabetic_run(
            characters.deep_view(),
        ),
{
    let criterion = Criterion::OtherHeight;
    let selected: Vec<RawCharacter> = select(characters, &criterion);
    assert((|r: Record| criterion.keeps(r)) =~= without_height());
    Ok(selected)
}

/// Puts `gender` at its place in the ascending list, unless it is there
/// already.
fn note_gender(genders: &mut Vec<String>, gender: &str)
    requires
        strictly_ascending(old(genders).deep_view()),
    ensures
        strictly_ascending(final(genders).deep_view()),
        forall|g: Seq<char>|
            final(genders).deep_view().contains(g) <==> (old(genders).deep_view().contains(g) || g
                == gender@),
{
    let ghost before = genders.deep_view();
    let mut p: usize = 0;
    while p < genders.len() && str_lt(genders[p].as_str(), gender)
        invariant
            p <= genders.len(),
            genders.deep_view() == before,
            forall|k: int| 0 <= k < p ==> text_lt(#[trigger] before[k], gender@),
        decreases genders.len() - p,
    {
        p += 1;
    }
    if p < genders.len() && str_eq(genders[p].as_str(), gender) {
        assert(before[p as int] == gender@);
        return ;
    }
    proof {
        if p < before.len() {
            lemma_text_le_total(before[p as int], gender@);
        }
        assert forall|k: int| p <= k < before.len() implies text_lt(
            gender@,
            #[trigger] before[k],
        ) by {
            if k > p {
                lemma_text_lt_transitive(gender@, before[p as int], before[k]);
            }
        }
    }
    genders.insert(p, gender.to_owned());
    proof {
        let after = genders.deep_view();
        assert(after =~= before.insert(p as int, gender@));
        assert forall|g: Seq<char>| after.contains(g) <==> (before.contains(g) || g
            == gender@) by {
            if after.contains(g) {
                let k = choose|k: int| 0 <= k < after.len() && after[k] == g;
                if k < p {
                    assert(before[k] == g);
                } else if k > p {
                    assert(before[k - 1] == g);
                }
            }
            if before.contains(g) {
                let k = choose|k: int| 0 <= k < before.len() && before[k] == g;
                if k < p {
                    assert(after[k] == g);
                } else {
                    assert(after[k + 1] == g);
                }
            }
            if g == gender@ {
                assert(after[p as int] == g);
            }
        }
        assert forall|i: int, j: int| 0 <= i < j < after.len() implies text_lt(
            after[i],
            after[j],
        ) by {
            if j < p {
                assert(text_lt(before[i], before[j]));
            } else if j == p {
                assert(text_lt(before[i], gender@));
            } else if i < p {
                assert(text_lt(before[i], before[j - 1]));
            } else if i == p {
                assert(text_lt(gender@, before[j - 1]));
            } else {
                assert(text_lt(before[i - 1], before[j - 1]));
            }
        }
    }
}

/// The genders that occur among the records: each once, in ascending order
/// of the texts.  Records without a gender contribute nothing.  Never fails.
pub fn extract_gender(characters: &[RawCharacter]) -> (result: Result<Vec<String>, PipelineError>)
    ensures
        result matches Ok(genders) && is_gender_list(
            genders.deep_view(),
            characters.deep_view(),
        ),
{
    let ghost records = characters.deep_view();
    let mut genders: Vec<String> = Vec::new();
    let mut i: usize = 0;
    while i < characters.len()
        invariant
            i <= characters.len(),
            records == characters.deep_view(),
            is_gender_list(genders.deep_view(), records.take(i as int)),
        decreases characters.len() - i,
    {
        let ghost before = genders.deep_view();
        let ghost seen = records.take(i as int);
        let ghost next = records.take(i + 1);
        match &characters[i].gender {
            Some(gender) => {
                note_gender(&mut genders, gender.as_str());
            },
            None => {},
        }
        proof {
            let after = genders.deep_view();
            let record = records[i as int];
            assert(record == characters[i as int]@);
            assert forall|g: Seq<char>| after.contains(g) <==> gender_occurs(next, g) by {
                assert(before.contains(g) <==> gender_occurs(seen, g));
                assert(after.contains(g) <==> (before.contains(g) || record.has_gender(g)));
                if gender_occurs(seen, g) {
                    let k = choose|k: int|
                        0 <= k < seen.len() && (#[trigger] seen[k]).has_gender(g);
                    assert(next[k].has_gender(g));
                }
                if record.has_gender(g) {
                    assert(next[i as int].has_gender(g));
                }
                if gender_occurs(next, g) {
                    let k = choose|k: int|
                        0 <= k < next.len() && (#[trigger] next[k]).has_gender(g);
                    if k < i {
                        assert(seen[k].has_gender(g));
                    }
                }
            }
        }
        i += 1;
    }
    assert(records.take(characters.len() as int) =~= records);
    Ok(genders)
}

} // verus!
