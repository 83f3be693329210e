use jot_deck_core::db::{create_in_memory, Store};
use jot_deck_core::error::JotDeckError;
use jot_deck_core::models::{NewCard, NewColumn, NewDeck, SortOrder};
use jot_deck_core::repository::column::{
    create, create_at_position, create_with, generate_column_name, get_by_deck_id, get_by_id,
    get_deleted, move_to_position, restore, soft_delete, soft_delete_with, to_alphabetic, update,
};
use jot_deck_core::repository::{card, deck};

fn setup() -> (Store, String) {
    let mut store = create_in_memory().unwrap();
    let deck = deck::create(
        &mut store,
        NewDeck {
            name: "Test Deck".to_string(),
            sort_order: SortOrder::default(),
        },
    )
    .unwrap();
    (store, deck.id)
}

fn new_column(deck_id: &str, name: &str) -> NewColumn {
    NewColumn {
        deck_id: deck_id.to_string(),
        name: name.to_string(),
    }
}

fn new_card(column_id: &str, content: &str) -> NewCard {
    NewCard {
        column_id: column_id.to_string(),
        content: content.to_string(),
    }
}

fn names(store: &Store, deck_id: &str) -> Vec<String> {
    get_by_deck_id(store, deck_id)
        .unwrap()
        .iter()
        .map(|c| c.name.clone())
        .collect()
}

fn positions(store: &Store, deck_id: &str) -> Vec<i32> {
    get_by_deck_id(store, deck_id)
        .unwrap()
        .iter()
        .map(|c| c.position)
        .collect()
}

#[test]
fn test_create_column() {
    let (mut conn, deck_id) = setup();

    let column = create(
        &mut conn,
        NewColumn {
            deck_id: deck_id.clone(),
            name: "".to_string(),
        },
    )
    .unwrap();

    assert_eq!(column.name, "a-col");
    assert_eq!(column.position, 0);
}

#[test]
fn test_auto_naming() {
    let (mut conn, deck_id) = setup();

    let col1 = create(&mut conn, new_column(&deck_id, "")).unwrap();
    let col2 = create(&mut conn, new_column(&deck_id, "")).unwrap();
    let col3 = create(&mut conn, new_column(&deck_id, "")).unwrap();

    assert_eq!(col1.name, "a-col");
    assert_eq!(col2.name, "b-col");
    assert_eq!(col3.name, "c-col");
}

#[test]
fn column_test_soft_delete_and_restore() {
    let (mut conn, deck_id) = setup();

    let column = create(
        &mut conn,
        NewColumn {
            deck_id: deck_id.clone(),
            name: "Test Column".to_string(),
        },
    )
    .unwrap();

    soft_delete(&mut conn, &column.id).unwrap();

    let deleted = get_by_id(&conn, &column.id).unwrap();
    assert!(deleted.deleted_at.is_some());

    let columns = get_by_deck_id(&conn, &deck_id).unwrap();
    assert!(columns.is_empty());

    let restored = restore(&mut conn, &column.id).unwrap();
    assert!(restored.deleted_at.is_none());

    let columns = get_by_deck_id(&conn, &deck_id).unwrap();
    assert_eq!(columns.len(), 1);
}

#[test]
fn test_move_column() {
    let (mut conn, deck_id) = setup();

    let col1 = create(&mut conn, new_column(&deck_id, "A")).unwrap();
    let _col2 = create(&mut conn, new_column(&deck_id, "B")).unwrap();
    let _col3 = create(&mut conn, new_column(&deck_id, "C")).unwrap();

    move_to_position(&mut conn, &col1.id, 2).unwrap();

    let columns = get_by_deck_id(&conn, &deck_id).unwrap();
    assert_eq!(columns[0].name, "B");
    assert_eq!(columns[1].name, "C");
    assert_eq!(columns[2].name, "A");
}

#[test]
fn test_to_alphabetic() {
    assert_eq!(to_alphabetic(0), "a");
    assert_eq!(to_alphabetic(1), "b");
    assert_eq!(to_alphabetic(25), "z");

    assert_eq!(to_alphabetic(26), "aa");
    assert_eq!(to_alphabetic(27), "ab");
    assert_eq!(to_alphabetic(51), "az");
    assert_eq!(to_alphabetic(52), "ba");
    assert_eq!(to_alphabetic(701), "zz");

    assert_eq!(to_alphabetic(702), "aaa");
    assert_eq!(to_alphabetic(703), "aab");
    assert_eq!(to_alphabetic(18277), "zzz");

    assert_eq!(to_alphabetic(18278), "aaaa");
}

#[test]
fn to_alphabetic_takes_the_largest_number() {
    assert_eq!(to_alphabetic(u32::MAX), "mwlqkwv");
}

#[test]
fn generated_names_count_columns_in_the_bin() {
    let (mut store, deck_id) = setup();
    let first = create(&mut store, new_column(&deck_id, "")).unwrap();
    soft_delete(&mut store, &first.id).unwrap();

    assert_eq!(generate_column_name(&store, &deck_id).unwrap(), "b-col");
    let second = create(&mut store, new_column(&deck_id, "")).unwrap();

    assert_eq!(second.name, "b-col");
    assert_eq!(second.position, 0);
    assert_eq!(generate_column_name(&store, "another deck").unwrap(), "a-col");
}

#[test]
fn move_last_column_to_front() {
    let (mut store, deck_id) = setup();
    create(&mut store, new_column(&deck_id, "A")).unwrap();
    create(&mut store, new_column(&deck_id, "B")).unwrap();
    let c = create(&mut store, new_column(&deck_id, "C")).unwrap();

    let moved = move_to_position(&mut store, &c.id, 0).unwrap();

    assert_eq!(moved.position, 0);
    assert_eq!(names(&store, &deck_id), vec!["C", "A", "B"]);
    assert_eq!(positions(&store, &deck_id), vec![0, 1, 2]);
}

#[test]
fn create_column_at_position_shifts_later_columns() {
    let (mut store, deck_id) = setup();
    create(&mut store, new_column(&deck_id, "A")).unwrap();
    create(&mut store, new_column(&deck_id, "B")).unwrap();

    let x = create_at_position(&mut store, new_column(&deck_id, ""), 1).unwrap();

    assert_eq!(x.name, "c-col");
    assert_eq!(x.position, 1);
    assert_eq!(names(&store, &deck_id), vec!["A", "c-col", "B"]);
    assert_eq!(positions(&store, &deck_id), vec![0, 1, 2]);
}

#[test]
fn column_restore_returns_to_its_place() {
    let (mut store, deck_id) = setup();
    let a = create(&mut store, new_column(&deck_id, "A")).unwrap();
    let b = create(&mut store, new_column(&deck_id, "B")).unwrap();
    create(&mut store, new_column(&deck_id, "C")).unwrap();

    soft_delete(&mut store, &b.id).unwrap();
    assert_eq!(names(&store, &deck_id), vec!["A", "C"]);
    assert_eq!(positions(&store, &deck_id), vec![0, 1]);
    let restored = restore(&mut store, &b.id).unwrap();
    assert_eq!(restored.position, 1);
    assert_eq!(names(&store, &deck_id), vec!["A", "B", "C"]);

    soft_delete(&mut store, &a.id).unwrap();
    assert_eq!(names(&store, &deck_id), vec!["B", "C"]);
    restore(&mut store, &a.id).unwrap();
    assert_eq!(names(&store, &deck_id), vec!["A", "B", "C"]);
    assert_eq!(positions(&store, &deck_id), vec![0, 1, 2]);
}

#[test]
fn column_delete_takes_its_active_cards_and_restore_brings_those_back() {
    let (mut store, deck_id) = setup();
    let col = create(&mut store, new_column(&deck_id, "Col")).unwrap();
    let one = card::create(&mut store, new_card(&col.id, "one")).unwrap();
    let two = card::create(&mut store, new_card(&col.id, "two")).unwrap();
    let three = card::create(&mut store, new_card(&col.id, "three")).unwrap();
    card::soft_delete(&mut store, &three.id).unwrap();

    soft_delete(&mut store, &col.id).unwrap();

    for id in [&one.id, &two.id] {
        let c = card::get_by_id(&store, id).unwrap();
        assert!(c.deleted_at.is_some());
        assert!(c.deleted_with_column);
        match card::restore(&mut store, id) {
            Err(JotDeckError::InvalidOperation(detail)) => assert_eq!(
                detail,
                "Cannot restore card that was deleted with column. Restore the column instead."
            ),
            other => panic!("unexpected {:?}", other),
        }
    }
    let alone = card::get_by_id(&store, &three.id).unwrap();
    assert!(alone.deleted_at.is_some());
    assert!(!alone.deleted_with_column);

    restore(&mut store, &col.id).unwrap();

    for id in [&one.id, &two.id] {
        let c = card::get_by_id(&store, id).unwrap();
        assert!(c.deleted_at.is_none());
        assert!(!c.deleted_with_column);
    }
    let alone = card::get_by_id(&store, &three.id).unwrap();
    assert!(alone.deleted_at.is_some());
    assert!(!alone.deleted_with_column);
    let shown: Vec<String> = card::get_by_column_id(&store, &col.id)
        .unwrap()
        .iter()
        .map(|c| c.content.clone())
        .collect();
    assert_eq!(shown, vec!["one", "two"]);
}

#[test]
fn column_delete_leaves_cards_of_other_columns() {
    let (mut store, deck_id) = setup();
    let gone = create(&mut store, new_column(&deck_id, "gone")).unwrap();
    let stays = create(&mut store, new_column(&deck_id, "stays")).unwrap();
    card::create(&mut store, new_card(&gone.id, "g")).unwrap();
    let s = card::create(&mut store, new_card(&stays.id, "s")).unwrap();

    soft_delete_with(&mut store, &gone.id, 77).unwrap();

    let kept = card::get_by_id(&store, &s.id).unwrap();
    assert!(kept.deleted_at.is_none());
    assert_eq!(kept.updated_at, s.updated_at);
    assert_eq!(get_by_id(&store, &stays.id).unwrap().position, 0);
    assert_eq!(get_by_id(&store, &gone.id).unwrap().deleted_at, Some(77));
}

#[test]
fn rename_keeps_the_name_where_none_is_given() {
    let (mut store, deck_id) = setup();
    let col = create(&mut store, new_column(&deck_id, "before")).unwrap();

    let same = update(&mut store, &col.id, None).unwrap();
    assert_eq!(same.name, "before");
    let renamed = update(&mut store, &col.id, Some("after")).unwrap();
    assert_eq!(renamed.name, "after");
    assert_eq!(renamed.position, 0);
    assert_eq!(get_by_id(&store, &col.id).unwrap().name, "after");
}

#[test]
fn column_errors_name_the_failed_transition() {
    let (mut store, deck_id) = setup();
    let col = create(&mut store, new_column(&deck_id, "A")).unwrap();

    match get_by_id(&store, "nope") {
        Err(JotDeckError::NotFound(detail)) => assert_eq!(detail, "Column not found: nope"),
        other => panic!("unexpected {:?}", other),
    }
    match restore(&mut store, &col.id) {
        Err(JotDeckError::InvalidOperation(detail)) => assert_eq!(detail, "Column is not deleted"),
        other => panic!("unexpected {:?}", other),
    }
    soft_delete(&mut store, &col.id).unwrap();
    match soft_delete(&mut store, &col.id) {
        Err(JotDeckError::InvalidOperation(detail)) => {
            assert_eq!(detail, "Column is already deleted")
        }
        other => panic!("unexpected {:?}", other),
    }
    match update(&mut store, &col.id, Some("x")) {
        Err(JotDeckError::InvalidOperation(detail)) => {
            assert_eq!(detail, "Cannot update deleted column")
        }
        other => panic!("unexpected {:?}", other),
    }
    match move_to_position(&mut store, &col.id, 0) {
        Err(JotDeckError::InvalidOperation(detail)) => {
            assert_eq!(detail, "Cannot move deleted column")
        }
        other => panic!("unexpected {:?}", other),
    }
    assert!(matches!(
        update(&mut store, "nope", None),
        Err(JotDeckError::NotFound(_))
    ));
}

#[test]
fn deleted_columns_are_listed_last_deleted_first() {
    let (mut store, deck_id) = setup();
    create_with(&mut store, new_column(&deck_id, "A"), "a".to_string(), 1).unwrap();
    create_with(&mut store, new_column(&deck_id, "B"), "b".to_string(), 2).unwrap();
    create_with(&mut store, new_column(&deck_id, "C"), "c".to_string(), 3).unwrap();
    soft_delete_with(&mut store, "b", 10).unwrap();
    soft_delete_with(&mut store, "a", 20).unwrap();

    let binned: Vec<String> = get_deleted(&store, &deck_id)
        .unwrap()
        .iter()
        .map(|c| c.name.clone())
        .collect();

    assert_eq!(binned, vec!["A", "B"]);
    assert_eq!(names(&store, &deck_id), vec!["C"]);
    assert_eq!(positions(&store, &deck_id), vec![0]);
}
