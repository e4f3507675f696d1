//! What the two views show, as plain text: the fixed home screen, and the
//! people screen's list of names with the selected record's detail row.
//! Turning these into widgets is the terminal layer's business.

use vstd::prelude::*;

use crate::codec::{fmt_usize, spec_digits};
use crate::cursor::Cursor;
use crate::person::Person;

verus! {

/// The people view: one entry per record for the list, and the five detail
/// cells (id, name, category, age, created at) of the selected record.
pub struct PeoplePanel {
    pub names: Vec<String>,
    pub detail: Vec<String>,
}

/// The fixed lines of the home view.
pub fn render_home() -> (r: Vec<String>)
    ensures
        r@.len() == 8,
        r@[0]@ == ""@,
        r@[1]@ == "Welcome"@,
        r@[2]@ == ""@,
        r@[3]@ == "to"@,
        r@[4]@ == ""@,
        r@[5]@ == "person-CLI"@,
        r@[6]@ == ""@,
        r@[7]@
            == "Press 'p' to access people, 'a' to add random new person and 'd' to delete the currently selected person."@,
{
    let mut r: Vec<String> = Vec::new();
    r.push("".to_owned());
    r.push("Welcome".to_owned());
    r.push("".to_owned());
    r.push("to".to_owned());
    r.push("".to_owned());
    r.push("person-CLI".to_owned());
    r.push("".to_owned());
    r.push(
        "Press 'p' to access people, 'a' to add random new person and 'd' to delete the currently selected person.".to_owned(),
    );
    r
}

/// The people view for a freshly loaded collection and the cursor over it:
/// nothing when the collection is empty, else every record's name in order
/// and the selected record's fields as text. The cursor must be valid for
/// the collection, as the interface keeps it.
pub fn render_people(cursor: &Cursor, people: &Vec<Person>) -> (r: Option<PeoplePanel>)
    requires
        people@.len() > 0 ==> cursor.selected is Some && cursor.selected->0 < people@.len(),
    ensures
        match r {
            None => people@.len() == 0,
            Some(panel) => people@.len() > 0 && ({
                let sel = cursor.selected->0 as int;
                &&& panel.names@.len() == people@.len()
                &&& forall|k: int|
                    0 <= k < people@.len() ==> (#[trigger] panel.names@[k])@
                        == people.deep_view()[k].name
                &&& panel.detail@.len() == 5
                &&& panel.detail@[0]@ == spec_digits(people.deep_view()[sel].id)
                &&& panel.detail@[1]@ == people.deep_view()[sel].name
                &&& panel.detail@[2]@ == people.deep_view()[sel].category
                &&& panel.detail@[3]@ == spec_digits(people.deep_view()[sel].age)
                &&& panel.detail@[4]@ == people.deep_view()[sel].created_at
            }),
        },
{
    if people.len() == 0 {
        return None;
    }
    let mut names: Vec<String> = Vec::new();
    let mut k: usize = 0;
    while k < people.len()
        invariant
            k <= people@.len(),
            names@.len() == k,
            forall|t: int|
                0 <= t < k ==> (#[trigger] names@[t])@ == people.deep_view()[t].name,
        decreases people@.len() - k,
    {
        names.push(people[k].name.clone());
        k += 1;
    }
    let sel = match cursor.selected {
        Some(s) => s,
        None => {
            return None;
        },
    };
    let selected = &people[sel];
    let mut detail: Vec<String> = Vec::new();
    detail.push(fmt_usize(selected.id));
    detail.push(selected.name.clone());
    detail.push(selected.category.clone());
    detail.push(fmt_usize(selected.age));
    detail.push(selected.created_at.clone());
    Some(PeoplePanel { names, detail })
}

} // verus!
