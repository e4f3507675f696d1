use person_cli::codec::encode;
use person_cli::cursor::Cursor;
use person_cli::database::{read_db, Error, Store};
use person_cli::person::Person;
use person_cli::render::{render_home, render_people};
use person_cli::ui::{handle_event, Event, Key, MenuItem, Step, UiState};

fn person(id: usize, name: &str) -> Person {
    Person {
        id,
        name: name.to_string(),
        category: "dogs".to_string(),
        age: 7,
        created_at: "2020-01-02T03:04:05+00:00".to_string(),
    }
}

fn store_of(people: Vec<Person>) -> Store {
    Store::new(encode(&people))
}

#[test]
fn cursor_wraps_forward_and_backward() {
    let mut c = Cursor::new();
    c.select(Some(2));
    c.move_next(3);
    assert_eq!(c.selected, Some(0));
    c.move_prev(3);
    assert_eq!(c.selected, Some(2));
    c.select(Some(1));
    c.move_next(3);
    assert_eq!(c.selected, Some(2));
    c.move_prev(3);
    assert_eq!(c.selected, Some(1));
}

#[test]
fn cursor_moves_are_noops_on_empty_or_unselected() {
    let mut c = Cursor::new();
    c.move_next(5);
    c.move_prev(5);
    assert_eq!(c.selected, None);
    c.select(Some(1));
    c.move_next(0);
    c.move_prev(0);
    assert_eq!(c.selected, Some(1));
}

#[test]
fn rebase_clears_on_empty_and_clamps_otherwise() {
    let mut c = Cursor::new();
    c.select(Some(4));
    c.rebase(0);
    assert_eq!(c.selected, None);
    c.rebase(3);
    assert_eq!(c.selected, Some(0));
    c.select(Some(1));
    c.rebase(3);
    assert_eq!(c.selected, Some(1));
    c.select(Some(9));
    c.rebase(3);
    assert_eq!(c.selected, Some(2));
}

#[test]
fn quit_home_people_and_tick_transitions() {
    let mut state = UiState::new();
    let mut store = Store::empty();
    assert_eq!(state.active, MenuItem::Home);
    assert_eq!(state.cursor.selected, Some(0));

    assert_eq!(handle_event(&mut state, &mut store, Event::Tick), Ok(Step::Continue));
    assert_eq!(
        handle_event(&mut state, &mut store, Event::Input(Key::Char('p'))),
        Ok(Step::Continue)
    );
    assert_eq!(state.active, MenuItem::People);
    assert_eq!(
        handle_event(&mut state, &mut store, Event::Input(Key::Char('h'))),
        Ok(Step::Continue)
    );
    assert_eq!(state.active, MenuItem::Home);
    assert_eq!(
        handle_event(&mut state, &mut store, Event::Input(Key::Char('x'))),
        Ok(Step::Continue)
    );
    assert_eq!(
        handle_event(&mut state, &mut store, Event::Input(Key::Other)),
        Ok(Step::Continue)
    );
    assert_eq!(
        handle_event(&mut state, &mut store, Event::Input(Key::Char('q'))),
        Ok(Step::Quit)
    );
}

#[test]
fn empty_store_append_twice_then_delete_rebases_cursor() {
    // Empty store; two appends; the collection has 2 records; select the
    // second; delete it; one record is left and the cursor stands on 0.
    let mut state = UiState::new();
    let mut store = Store::empty();
    assert_eq!(
        handle_event(&mut state, &mut store, Event::Input(Key::Char('a'))),
        Ok(Step::Continue)
    );
    assert_eq!(
        handle_event(&mut state, &mut store, Event::Input(Key::Char('a'))),
        Ok(Step::Continue)
    );
    assert_eq!(read_db(&store).expect("loads").len(), 2);

    state.cursor.select(Some(1));
    assert_eq!(
        handle_event(&mut state, &mut store, Event::Input(Key::Char('d'))),
        Ok(Step::Continue)
    );
    assert_eq!(read_db(&store).expect("loads").len(), 1);
    assert_eq!(state.cursor.selected, Some(0));
}

#[test]
fn down_at_last_index_wraps_to_zero() {
    // Three records, cursor on the last; Down wraps the selection to 0.
    let mut state = UiState::new();
    let mut store = store_of(vec![person(1, "a"), person(2, "b"), person(3, "c")]);
    state.cursor.select(Some(2));
    assert_eq!(
        handle_event(&mut state, &mut store, Event::Input(Key::Down)),
        Ok(Step::Continue)
    );
    assert_eq!(state.cursor.selected, Some(0));
}

#[test]
fn up_at_zero_wraps_to_last_index() {
    let mut state = UiState::new();
    let mut store = store_of(vec![person(1, "a"), person(2, "b"), person(3, "c")]);
    assert_eq!(
        handle_event(&mut state, &mut store, Event::Input(Key::Up)),
        Ok(Step::Continue)
    );
    assert_eq!(state.cursor.selected, Some(2));
}

#[test]
fn navigation_on_empty_collection_changes_nothing() {
    let mut state = UiState::new();
    let mut store = Store::empty();
    assert_eq!(
        handle_event(&mut state, &mut store, Event::Input(Key::Down)),
        Ok(Step::Continue)
    );
    assert_eq!(state.cursor.selected, Some(0));
    assert_eq!(
        handle_event(&mut state, &mut store, Event::Input(Key::Up)),
        Ok(Step::Continue)
    );
    assert_eq!(state.cursor.selected, Some(0));
}

#[test]
fn corrupt_store_surfaces_as_error_not_a_crash() {
    let mut state = UiState::new();
    let mut store = Store::new("not a collection".to_string());
    assert_eq!(
        handle_event(&mut state, &mut store, Event::Input(Key::Char('a'))),
        Err(Error::StoreCorrupt)
    );
    assert_eq!(
        handle_event(&mut state, &mut store, Event::Input(Key::Down)),
        Err(Error::StoreCorrupt)
    );
    assert_eq!(store.medium(), "not a collection");
    assert_eq!(state.cursor.selected, Some(0));
}

#[test]
fn home_view_lines() {
    let lines = render_home();
    assert_eq!(lines.len(), 8);
    assert_eq!(lines[1], "Welcome");
    assert_eq!(lines[3], "to");
    assert_eq!(lines[5], "person-CLI");
    assert!(lines[7].starts_with("Press 'p'"));
}

#[test]
fn people_view_empty_and_selected() {
    let cursor = Cursor::new();
    let none: Vec<Person> = Vec::new();
    assert!(render_people(&cursor, &none).is_none());

    let people = vec![person(5, "first"), person(6, "second")];
    let mut cursor = Cursor::new();
    cursor.select(Some(1));
    let panel = render_people(&cursor, &people).expect("non-empty renders");
    assert_eq!(panel.names.len(), 2);
    assert_eq!(panel.names[0], "first");
    assert_eq!(panel.names[1], "second");
    assert_eq!(panel.detail.len(), 5);
    assert_eq!(panel.detail[0], "6");
    assert_eq!(panel.detail[1], "second");
    assert_eq!(panel.detail[2], "dogs");
    assert_eq!(panel.detail[3], "7");
    assert_eq!(panel.detail[4], "2020-01-02T03:04:05+00:00");
}
