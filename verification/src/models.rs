//! The data carried through the pipeline, and its mathematical content.

use vstd::prelude::*;
use crate::decimal::integer_value;

verus! {

/// What a character record holds, as mathematics: each text field is a
/// sequence of characters, and an absent field is `None`, never the empty
/// text.
pub struct Record {
    pub name: Option<Seq<char>>,
    pub height: Option<Seq<char>>,
    pub gender: Option<Seq<char>>,
    pub birth_year: Option<Seq<char>>,
    pub eye_color: Option<Seq<char>>,
    pub hair_color: Option<Seq<char>>,
    pub mass: Option<Seq<char>>,
    pub skin_color: Option<Seq<char>>,
    pub homeworld: Option<Seq<char>>,
    pub films: Seq<Option<Seq<char>>>,
    pub species: Seq<Option<Seq<char>>>,
    pub starships: Seq<Option<Seq<char>>>,
    pub vehicles: Seq<Option<Seq<char>>>,
    pub url: Option<Seq<char>>,
    pub created: Option<Seq<char>>,
    pub edited: Option<Seq<char>>,
}

impl Record {
    /// The height as a number, where a height is present and denotes one.
    pub open spec fn numeric_height(self) -> Option<int> {
        match self.height {
            Some(height) => integer_value(height),
            None => None,
        }
    }

    /// The record is of the given gender.  A record without a gender is of
    /// none.
    pub open spec fn has_gender(self, gender: Seq<char>) -> bool {
        self.gender == Some(gender)
    }
}

/// What one page of the collection holds.
pub struct Page {
    pub count: int,
    pub next: Option<Seq<char>>,
    pub previous: Option<Seq<char>>,
    pub results: Seq<Record>,
}

/// What one output group holds: a gender and the ordered records of that
/// gender.
pub struct Group {
    pub gender: Seq<char>,
    pub characters: Seq<Record>,
}

/// What a character with a numeric height holds.
pub struct Profile {
    pub name: Option<Seq<char>>,
    pub height: int,
    pub gender: Option<Seq<char>>,
}

/// One character as the collection delivers it.  Only `name`, `height` and
/// `gender` are read; everything else is carried through untouched.
#[derive(Debug, PartialEq, Eq)]
pub struct RawCharacter {
    pub name: Option<String>,
    pub height: Option<String>,
    pub gender: Option<String>,
    pub birth_year: Option<String>,
    pub eye_color: Option<String>,
    pub hair_color: Option<String>,
    pub mass: Option<String>,
    pub skin_color: Option<String>,
    pub homeworld: Option<String>,
    pub films: Vec<Option<String>>,
    pub species: Vec<Option<String>>,
    pub starships: Vec<Option<String>>,
    pub vehicles: Vec<Option<String>>,
    pub url: Option<String>,
    pub created: Option<String>,
    pub edited: Option<String>,
}

/// One gender with its characters, in output order.
#[derive(Debug, PartialEq, Eq)]
pub struct OutputCharacter {
    pub gender: String,
    pub characters: Vec<RawCharacter>,
}

/// A character whose height has been read as a number.
#[derive(Debug, PartialEq, Eq)]
pub struct Character {
    pub name: Option<String>,
    pub height: i32,
    pub gender: Option<String>,
}

/// One page of the paginated collection.
#[derive(Debug, PartialEq, Eq)]
pub struct APIResponse {
    pub count: i32,
    pub next: Option<String>,
    pub previous: Option<String>,
    pub results: Vec<RawCharacter>,
}

impl View for RawCharacter {
    type V = Record;

    open spec fn view(&self) -> Record {
        Record {
            name: self.name.deep_view(),
            height: self.height.deep_view(),
            gender: self.gender.deep_view(),
            birth_year: self.birth_year.deep_view(),
            eye_color: self.eye_color.deep_view(),
            hair_color: self.hair_color.deep_view(),
            mass: self.mass.deep_view(),
            skin_color: self.skin_color.deep_view(),
            homeworld: self.homeworld.deep_view(),
            films: self.films.deep_view(),
            species: self.species.deep_view(),
            starships: self.starships.deep_view(),
            vehicles: self.vehicles.deep_view(),
            url: self.url.deep_view(),
            created: self.created.deep_view(),
            edited: self.edited.deep_view(),
        }
    }
}

impl DeepView for RawCharacter {
    type V = Record;

    open spec fn deep_view(&self) -> Record {
        self@
    }
}

impl View for OutputCharacter {
    type V = Group;

    open spec fn view(&self) -> Group {
        Group { gender: self.gender@, characters: self.characters.deep_view() }
    }
}

impl DeepView for OutputCharacter {
    type V = Group;

    open spec fn deep_view(&self) -> Group {
        self@
    }
}

impl View for Character {
    type V = Profile;

    open spec fn view(&self) -> Profile {
        Profile {
            name: self.name.deep_view(),
            height: self.height as int,
            gender: self.gender.deep_view(),
        }
    }
}

impl View for APIResponse {
    type V = Page;

    open spec fn view(&self) -> Page {
        Page {
            count: self.count as int,
            next: self.next.deep_view(),
            previous: self.previous.deep_view(),
            results: self.results.deep_view(),
        }
    }
}

impl DeepView for APIResponse {
    type V = Page;

    open spec fn deep_view(&self) -> Page {
        self@
    }
}

/// A copy of an optional text, with the same content.
pub(crate) fn clone_text(text: &Option<String>) -> (copy: Option<String>)
    ensures
        copy.deep_view() == text.deep_view(),
{
    match text {
        Some(s) => Some(s.clone()),
        None => None,
    }
}

/// A copy of a list of optional texts, with the same content in the same
/// order.
pub(crate) fn clone_texts(texts: &Vec<Option<String>>) -> (copy: Vec<Option<String>>)
    ensures
        copy.deep_view() == texts.deep_view(),
{
    let mut copy: Vec<Option<String>> = Vec::new();
    let mut i: usize = 0;
    while i < texts.len()
        invariant
            i <= texts.len(),
            copy.len() == i,
            forall|k: int| 0 <= k < i ==> (#[trigger] copy[k]).deep_view() == texts[k].deep_view(),
        decreases texts.len() - i,
    {
        copy.push(clone_text(&texts[i]));
        i += 1;
    }
    assert(copy.deep_view() =~= texts.deep_view());
    copy
}

impl Clone for RawCharacter {
    fn clone(&self) -> (copy: Self)
        ensures
            copy@ == self@,
    {
        RawCharacter {
            name: clone_text(&self.name),
            height: clone_text(&self.height),
            gender: clone_text(&self.gender),
            birth_year: clone_text(&self.birth_year),
            eye_color: clone_text(&self.eye_color),
            hair_color: clone_text(&self.hair_color),
            mass: clone_text(&self.mass),
            skin_color: clone_text(&self.skin_color),
            homeworld: clone_text(&self.homeworld),
            films: clone_texts(&self.films),
            species: clone_texts(&self.species),
            starships: clone_texts(&self.starships),
            vehicles: clone_texts(&self.vehicles),
            url: clone_text(&self.url),
            created: clone_text(&self.created),
            edited: clone_text(&self.edited),
        }
    }
}

/// A copy of a list of characters, with the same content in the same order.
pub(crate) fn clone_characters(characters: &Vec<RawCharacter>) -> (copy: Vec<RawCharacter>)
    ensures
        copy.deep_view() == characters.deep_view(),
{
    let mut copy: Vec<RawCharacter> = Vec::new();
    let mut i: usize = 0;
    while i < characters.len()
        invariant
            i <= characters.len(),
            copy.len() == i,
            forall|k: int| 0 <= k < i ==> (#[trigger] copy[k])@ == characters[k]@,
        decreases characters.len() - i,
    {
        copy.push(characters[i].clone());
        i += 1;
    }
    assert(copy.deep_view() =~= characters.deep_view());
    copy
}

impl Clone for OutputCharacter {
    fn clone(&self) -> (copy: Self)
        ensures
            copy@ == self@,
    {
        OutputCharacter {
            gender: self.gender.clone(),
            characters: clone_characters(&self.characters),
        }
    }
}

impl Clone for APIResponse {
    fn clone(&self) -> (copy: Self)
        ensures
            copy@ == self@,
    {
        APIResponse {
            count: self.count,
            next: clone_text(&self.next),
            previous: clone_text(&self.previous),
            results: clone_characters(&self.results),
        }
    }
}

} // verus!
