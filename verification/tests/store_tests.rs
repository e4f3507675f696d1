use person_cli::codec::encode;
use person_cli::cursor::Cursor;
use person_cli::database::{
    add_random_person_to_db, generate_random_person, read_db, remove_person_at_index, Error, Store,
};
use person_cli::person::Person;

fn person(id: usize, name: &str) -> Person {
    Person {
        id,
        name: name.to_string(),
        category: "cats".to_string(),
        age: 3,
        created_at: "2020-01-02T03:04:05+00:00".to_string(),
    }
}

fn store_of(people: Vec<Person>) -> Store {
    Store::new(encode(&people))
}

#[test]
fn append_grows_by_one_and_keeps_prior_records() {
    let mut store = Store::empty();
    assert_eq!(read_db(&store).expect("fresh store loads").len(), 0);

    let first = add_random_person_to_db(&mut store).expect("append works");
    assert_eq!(first.len(), 1);
    assert_eq!(read_db(&store).expect("loads").len(), 1);
    let remembered = read_db(&store).expect("loads");

    let second = add_random_person_to_db(&mut store).expect("append works");
    assert_eq!(second.len(), 2);
    let after = read_db(&store).expect("loads");
    assert_eq!(after.len(), 2);
    assert!(after[0] == remembered[0], "prior record unchanged by append");
}

#[test]
fn generated_record_stays_in_bounds() {
    for _ in 0..50 {
        let p = generate_random_person();
        assert!(p.id < 9999999);
        assert!(1 <= p.age && p.age < 15);
        assert!(p.category == "cats" || p.category == "dogs");
        assert_eq!(p.name.chars().count(), 10);
        assert!(p.name.chars().all(|c| c.is_ascii_alphanumeric()));
        assert!(
            chrono::DateTime::parse_from_rfc3339(&p.created_at).is_ok(),
            "creation stamp is RFC 3339: {}",
            p.created_at
        );
    }
}

#[test]
fn remove_middle_keeps_order() {
    let mut store = store_of(vec![person(1, "a"), person(2, "b"), person(3, "c")]);
    let mut cursor = Cursor::new();
    cursor.select(Some(1));
    remove_person_at_index(&mut store, &mut cursor).expect("remove works");
    let left = read_db(&store).expect("loads");
    assert_eq!(left.len(), 2);
    assert_eq!(left[0].id, 1);
    assert_eq!(left[1].id, 3);
    assert_eq!(cursor.selected, Some(0));
}

#[test]
fn remove_first_keeps_cursor_at_zero() {
    let mut store = store_of(vec![person(1, "a"), person(2, "b")]);
    let mut cursor = Cursor::new();
    cursor.select(Some(0));
    remove_person_at_index(&mut store, &mut cursor).expect("remove works");
    let left = read_db(&store).expect("loads");
    assert_eq!(left.len(), 1);
    assert_eq!(left[0].id, 2);
    assert_eq!(cursor.selected, Some(0));
}

#[test]
fn remove_last_of_one_clears_cursor() {
    let mut store = store_of(vec![person(9, "only")]);
    let mut cursor = Cursor::new();
    cursor.select(Some(0));
    remove_person_at_index(&mut store, &mut cursor).expect("remove works");
    assert_eq!(read_db(&store).expect("loads").len(), 0);
    assert_eq!(cursor.selected, None);
}

#[test]
fn remove_on_empty_collection_is_a_noop() {
    let mut store = Store::empty();
    let before = store.medium().to_string();
    let mut cursor = Cursor::new();
    cursor.select(Some(0));
    remove_person_at_index(&mut store, &mut cursor).expect("no-op, no error");
    assert_eq!(store.medium(), before);
    assert_eq!(cursor.selected, Some(0));
}

#[test]
fn remove_with_stale_index_is_a_noop() {
    let mut store = store_of(vec![person(1, "a"), person(2, "b")]);
    let before = store.medium().to_string();
    let mut cursor = Cursor::new();
    cursor.select(Some(5));
    remove_person_at_index(&mut store, &mut cursor).expect("no-op, no error");
    assert_eq!(store.medium(), before);
    assert_eq!(cursor.selected, Some(5));
}

#[test]
fn remove_with_nothing_selected_is_a_noop() {
    let mut store = Store::new("not even a collection".to_string());
    let mut cursor = Cursor::new();
    remove_person_at_index(&mut store, &mut cursor).expect("nothing selected, no read");
    assert_eq!(cursor.selected, None);
}

#[test]
fn corrupt_medium_is_reported_and_left_alone() {
    let store = Store::new("{oops".to_string());
    assert!(matches!(read_db(&store), Err(Error::StoreCorrupt)));

    let mut store = Store::new("{oops".to_string());
    assert_eq!(
        add_random_person_to_db(&mut store).map(|c| c.len()),
        Err(Error::StoreCorrupt)
    );
    assert_eq!(store.medium(), "{oops");

    let mut cursor = Cursor::new();
    cursor.select(Some(0));
    assert_eq!(
        remove_person_at_index(&mut store, &mut cursor),
        Err(Error::StoreCorrupt)
    );
    assert_eq!(store.medium(), "{oops");
}

#[test]
fn persisting_then_loading_returns_the_same_records() {
    let people = vec![person(1, "alpha"), person(2, "beta"), person(3, "gamma")];
    let store = store_of(people.clone());
    let reread = Store::new(store.medium().to_string());
    let loaded = read_db(&reread).expect("loads");
    assert_eq!(loaded.len(), people.len());
    for (a, b) in people.iter().zip(loaded.iter()) {
        assert!(a == b);
    }
}

#[test]
fn one_owner_serializes_interleaved_mutations() {
    // Both the ingestion trigger and the interface mutate through the same
    // single-owner store, so an append and a removal interleaved in time
    // both take effect.
    let mut store = store_of(vec![person(1, "a"), person(2, "b"), person(3, "c")]);
    let appended = add_random_person_to_db(&mut store).expect("append works");
    let new_id = appended[3].id;
    let mut cursor = Cursor::new();
    cursor.select(Some(0));
    remove_person_at_index(&mut store, &mut cursor).expect("remove works");
    let left = read_db(&store).expect("loads");
    assert_eq!(left.len(), 3);
    assert_eq!(left[0].id, 2);
    assert_eq!(left[1].id, 3);
    assert_eq!(left[2].id, new_id, "the concurrent append is not lost");
}

#[test]
fn stale_snapshots_lose_updates_without_one_owner() {
    // Two contexts that each read the medium for themselves and write back
    // whole, as the unserialized design does, end with the last writer
    // winning: the first writer's append is silently discarded.
    let medium = encode(&vec![person(1, "a"), person(2, "b")]);
    let mut context_a = Store::new(medium.clone());
    let mut context_b = Store::new(medium);

    let appended = add_random_person_to_db(&mut context_a).expect("append works");
    assert_eq!(appended.len(), 3);

    let mut cursor = Cursor::new();
    cursor.select(Some(0));
    remove_person_at_index(&mut context_b, &mut cursor).expect("remove works");

    // The medium ends as the last writer left it.
    let last_written = Store::new(context_b.medium().to_string());
    let left = read_db(&last_written).expect("loads");
    assert_eq!(left.len(), 1);
    assert_eq!(left[0].id, 2);
    assert!(
        left.iter().all(|p| p.id != appended[2].id || p.name != appended[2].name),
        "the other context's append was overwritten"
    );
}
