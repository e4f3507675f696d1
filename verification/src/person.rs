//! The record type: one stored person, its mathematical view, and the
//! well-formedness that the persistence codec relies on.

use vstd::prelude::*;

verus! {

/// One stored record. Identity is `id`; uniqueness of `id` is not enforced
/// by the store. `created_at` holds the creation time as an RFC 3339 text,
/// exactly as it is persisted.
#[derive(Debug)]
pub struct Person {
    pub id: usize,
    pub name: String,
    pub category: String,
    pub age: usize,
    pub created_at: String,
}

/// The mathematical value of a record: numbers as naturals, texts as
/// character sequences.
pub ghost struct PersonView {
    pub id: nat,
    pub name: Seq<char>,
    pub category: Seq<char>,
    pub age: nat,
    pub created_at: Seq<char>,
}

impl View for Person {
    type V = PersonView;

    open spec fn view(&self) -> PersonView {
        PersonView {
            id: self.id as nat,
            name: self.name@,
            category: self.category@,
            age: self.age as nat,
            created_at: self.created_at@,
        }
    }
}

impl DeepView for Person {
    type V = PersonView;

    open spec fn deep_view(&self) -> PersonView {
        self.view()
    }
}

/// A character that may stand unescaped inside a persisted text field:
/// not a quote, not a backslash, not a control character.
pub open spec fn is_safe_char(c: char) -> bool {
    c != '"' && c != '\\' && c as u32 >= 0x20
}

/// Every character of the sequence is safe for a persisted text field.
pub open spec fn safe_seq(s: Seq<char>) -> bool {
    forall|i: int| 0 <= i < s.len() ==> is_safe_char(#[trigger] s[i])
}

/// A record whose text fields can be persisted verbatim, and whose numbers
/// fit the machine.
pub open spec fn person_wf(p: PersonView) -> bool {
    &&& safe_seq(p.name)
    &&& safe_seq(p.category)
    &&& safe_seq(p.created_at)
    &&& p.id <= usize::MAX
    &&& p.age <= usize::MAX
}

/// Every record of the collection is well-formed.
pub open spec fn people_wf(s: Seq<PersonView>) -> bool {
    forall|i: int| 0 <= i < s.len() ==> person_wf(#[trigger] s[i])
}

/// The bounds that every randomly generated record meets: the id below
/// 9 999 999, the age drawn from [1, 14], the category one of the two fixed
/// ones, and the name ten characters long.
pub open spec fn generated_bounds(p: PersonView) -> bool {
    &&& p.id < 9999999
    &&& 1 <= p.age < 15
    &&& (p.category == "cats"@ || p.category == "dogs"@)
    &&& p.name.len() == 10
}

impl Clone for Person {
    fn clone(&self) -> (r: Person)
        ensures
            r@ == self@,
    {
        Person {
            id: self.id,
            name: self.name.clone(),
            category: self.category.clone(),
            age: self.age,
            created_at: self.created_at.clone(),
        }
    }
}

impl PartialEq for Person {
    fn eq(&self, other: &Person) -> (r: bool) {
        self.id == other.id && self.name == other.name && self.category == other.category
            && self.age == other.age && self.created_at == other.created_at
    }
}

impl vstd::std_specs::cmp::PartialEqSpecImpl for Person {
    open spec fn obeys_eq_spec() -> bool {
        true
    }

    open spec fn eq_spec(&self, other: &Person) -> bool {
        self@ == other@
    }
}

} // verus!
