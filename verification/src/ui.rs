//! The interface's state machine: the active view and the selection
//! cursor, driven by the merged stream of timer ticks and key events. The
//! surrounding loop renders after every event and performs no decisions of
//! its own; every state transition is here.

use vstd::prelude::*;

use crate::cursor::{spec_move_next, spec_move_prev, Cursor};
use crate::database::{
    add_random_person_to_db, read_db, remove_person_at_index, Error, Store,
};
use crate::codec::{lemma_encode_injective, spec_encode};
use crate::person::{generated_bounds, people_wf, person_wf, PersonView};

verus! {

/// A key the interface reacts to; anything else is `Other`.
#[derive(Clone, Copy, Debug, PartialEq, Eq, Structural)]
pub enum Key {
    Char(char),
    Down,
    Up,
    Other,
}

/// One event consumed by the interface loop: a key, or a timer tick.
#[derive(Clone, Copy, Debug, PartialEq, Eq, Structural)]
pub enum Event {
    Input(Key),
    Tick,
}

/// Which view is active.
#[derive(Clone, Copy, Debug, PartialEq, Eq, Structural)]
pub enum MenuItem {
    Home,
    People,
}

impl From<MenuItem> for usize {
    /// The tab position of each view.
    fn from(input: MenuItem) -> (r: usize) {
        match input {
            MenuItem::Home => 0,
            MenuItem::People => 1,
        }
    }
}

impl vstd::std_specs::convert::FromSpecImpl<MenuItem> for usize {
    open spec fn obeys_from_spec() -> bool {
        true
    }

    open spec fn from_spec(m: MenuItem) -> usize {
        match m {
            MenuItem::Home => 0,
            MenuItem::People => 1,
        }
    }
}

/// Whether the loop goes on after an event.
#[derive(Clone, Copy, Debug, PartialEq, Eq, Structural)]
pub enum Step {
    Continue,
    Quit,
}

/// The interface's own state: the active view and the cursor it owns.
pub struct UiState {
    pub active: MenuItem,
    pub cursor: Cursor,
}

impl UiState {
    /// The state at start: the home view, the first record selected.
    pub fn new() -> (r: UiState)
        ensures
            r.active == MenuItem::Home,
            r.cursor.selected == Some(0usize),
    {
        let mut cursor = Cursor::new();
        cursor.select(Some(0));
        UiState { active: MenuItem::Home, cursor }
    }
}

/// The store's text is not the encoding of any well-formed collection.
pub open spec fn store_corrupt(text: Seq<char>) -> bool {
    forall|cs: Seq<PersonView>| people_wf(cs) ==> text != #[trigger] spec_encode(cs)
}

/// Execute one event against the interface state and the store, and say
/// whether the loop goes on. Every transition of the interface is here:
/// `q` ends the loop; `h` and `p` switch the view; `a` appends a random
/// record (the cursor stays, since growth cannot invalidate it); `d`
/// removes the selected record and steps the cursor down; the arrow keys
/// move the selection with wrap-around against the freshly read length; a
/// tick changes nothing. A corrupt store surfaces as an error, with
/// nothing changed, where a transition had to read it.
pub fn handle_event(state: &mut UiState, store: &mut Store, event: Event) -> (r: Result<
    Step,
    Error,
>)
    ensures
        r is Err ==> r == Err::<Step, Error>(Error::StoreCorrupt) && store_corrupt(
            old(store).text(),
        ) && *final(state) == *old(state) && final(store).text() == old(store).text(),
        match event {
            Event::Tick => r == Ok::<Step, Error>(Step::Continue) && *final(state) == *old(state)
                && final(store).text() == old(store).text(),
            Event::Input(key) => match key {
                Key::Char(ch) => {
                    if ch == 'q' {
                        r == Ok::<Step, Error>(Step::Quit) && *final(state) == *old(state) && final(store).text() == old(store).text()
                    } else if ch == 'h' {
                        r == Ok::<Step, Error>(Step::Continue) && final(state).active
                            == MenuItem::Home && final(state).cursor == old(state).cursor && final(store).text() == old(store).text()
                    } else if ch == 'p' {
                        r == Ok::<Step, Error>(Step::Continue) && final(state).active
                            == MenuItem::People && final(state).cursor == old(state).cursor
                            && final(store).text() == old(store).text()
                    } else if ch == 'a' {
                        &&& (r is Err <==> store_corrupt(old(store).text()))
                        &&& r is Ok ==> r == Ok::<Step, Error>(Step::Continue) && *final(state)
                            == *old(state) && (forall|cs: Seq<PersonView>|
                            people_wf(cs) && old(store).text() == #[trigger] spec_encode(cs)
                                ==> exists|q: PersonView|
                                person_wf(q) && generated_bounds(q) && final(store).text()
                                    == spec_encode(cs.push(q)))
                    } else if ch == 'd' {
                        &&& (r is Err <==> (old(state).cursor.selected is Some && store_corrupt(
                            old(store).text(),
                        )))
                        &&& r is Ok ==> r == Ok::<Step, Error>(Step::Continue) && final(state).active == old(state).active
                        &&& (old(state).cursor.selected is None ==> *final(state) == *old(state)
                            && final(store).text() == old(store).text())
                        &&& forall|cs: Seq<PersonView>|
                            (people_wf(cs) && old(store).text() == #[trigger] spec_encode(cs)
                                && old(state).cursor.selected is Some) ==> ({
                                let sel = old(state).cursor.selected->0;
                                if sel < cs.len() {
                                    &&& final(store).text() == spec_encode(cs.remove(sel as int))
                                    &&& final(state).cursor.selected == (if cs.len() == 1 {
                                        None
                                    } else {
                                        Some(
                                            (if sel == 0 {
                                                0usize
                                            } else {
                                                (sel - 1) as usize
                                            }),
                                        )
                                    })
                                } else {
                                    &&& final(store).text() == old(store).text()
                                    &&& final(state).cursor == old(state).cursor
                                }
                            })
                    } else {
                        r == Ok::<Step, Error>(Step::Continue) && *final(state) == *old(state)
                            && final(store).text() == old(store).text()
                    }
                },
                Key::Down => {
                    &&& (r is Err <==> (old(state).cursor.selected is Some && store_corrupt(
                        old(store).text(),
                    )))
                    &&& final(store).text() == old(store).text()
                    &&& r is Ok ==> r == Ok::<Step, Error>(Step::Continue) && final(state).active
                        == old(state).active
                    &&& (old(state).cursor.selected is None ==> *final(state) == *old(state))
                    &&& forall|cs: Seq<PersonView>|
                        (people_wf(cs) && old(store).text() == #[trigger] spec_encode(cs) && old(state).cursor.selected is Some) ==> final(state).cursor.selected
                            == spec_move_next(old(state).cursor.selected, cs.len())
                },
                Key::Up => {
                    &&& (r is Err <==> (old(state).cursor.selected is Some && store_corrupt(
                        old(store).text(),
                    )))
                    &&& final(store).text() == old(store).text()
                    &&& r is Ok ==> r == Ok::<Step, Error>(Step::Continue) && final(state).active
                        == old(state).active
                    &&& (old(state).cursor.selected is None ==> *final(state) == *old(state))
                    &&& forall|cs: Seq<PersonView>|
                        (people_wf(cs) && old(store).text() == #[trigger] spec_encode(cs) && old(state).cursor.selected is Some) ==> final(state).cursor.selected
                            == spec_move_prev(old(state).cursor.selected, cs.len())
                },
                Key::Other => r == Ok::<Step, Error>(Step::Continue) && *final(state) == *old(state)
                    && final(store).text() == old(store).text(),
            },
        },
{
    match event {
        Event::Tick => Ok(Step::Continue),
        Event::Input(key) => match key {
            Key::Char(ch) => {
                if ch == 'q' {
                    Ok(Step::Quit)
                } else if ch == 'h' {
                    state.active = MenuItem::Home;
                    Ok(Step::Continue)
                } else if ch == 'p' {
                    state.active = MenuItem::People;
                    Ok(Step::Continue)
                } else if ch == 'a' {
                    match add_random_person_to_db(store) {
                        Ok(c) => {
                            proof {
                                let dv = c.deep_view();
                                assert forall|cs: Seq<PersonView>|
                                    people_wf(cs) && old(store).text() == #[trigger] spec_encode(
                                    cs,
                                ) implies exists|q: PersonView|
                                    person_wf(q) && generated_bounds(q) && final(store).text()
                                        == spec_encode(cs.push(q)) by {
                                    assert(person_wf(dv.last()) && generated_bounds(dv.last())
                                        && final(store).text() == spec_encode(
                                        cs.push(dv.last()),
                                    ));
                                }
                            }
                            Ok(Step::Continue)
                        },
                        Err(e) => Err(e),
                    }
                } else if ch == 'd' {
                    match remove_person_at_index(store, &mut state.cursor) {
                        Ok(()) => Ok(Step::Continue),
                        Err(e) => Err(e),
                    }
                } else {
                    Ok(Step::Continue)
                }
            },
            Key::Down => {
                match state.cursor.selected {
                    None => Ok(Step::Continue),
                    Some(_) => match read_db(store) {
                        Err(e) => Err(e),
                        Ok(c) => {
                            proof {
                                assert forall|cs: Seq<PersonView>|
                                    people_wf(cs) && old(store).text() == #[trigger] spec_encode(
                                    cs,
                                ) implies cs == c.deep_view() by {
                                    lemma_encode_injective(cs, c.deep_view());
                                }
                            }
                            state.cursor.move_next(c.len());
                            Ok(Step::Continue)
                        },
                    },
                }
            },
            Key::Up => {
                match state.cursor.selected {
                    None => Ok(Step::Continue),
                    Some(_) => match read_db(store) {
                        Err(e) => Err(e),
                        Ok(c) => {
                            proof {
                                assert forall|cs: Seq<PersonView>|
                                    people_wf(cs) && old(store).text() == #[trigger] spec_encode(
                                    cs,
                                ) implies cs == c.deep_view() by {
                                    lemma_encode_injective(cs, c.deep_view());
                                }
                            }
                            state.cursor.move_prev(c.len());
                            Ok(Step::Continue)
                        },
                    },
                }
            },
            Key::Other => Ok(Step::Continue),
        },
    }
}

} // verus!
