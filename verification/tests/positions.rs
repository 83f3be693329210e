use jot_deck_core::db::{create_in_memory, Store};
use jot_deck_core::error::JotDeckError;
use jot_deck_core::listing::{list_by, Number};
use jot_deck_core::models::{Card, CardTag, NewCard, NewColumn, Tag};
use jot_deck_core::repository::card::{
    create_at_position_with, create_with, get_by_column_id, get_by_id, get_next_position,
    move_to_column_with, move_to_position_with, restore_with, soft_delete_with, update_score_with,
};
use jot_deck_core::repository;
use jot_deck_core::repository::tag::{find_tag_named, is_linked};
use jot_deck_core::sibling::{
    highest_position_after_shift, insert_row, move_row, reinsert_row, remove_row, shift_rows,
};

fn new_card(column_id: &str, content: &str) -> NewCard {
    NewCard {
        column_id: column_id.to_string(),
        content: content.to_string(),
    }
}

fn three() -> Store {
    let mut store = create_in_memory().unwrap();
    create_with(&mut store, new_card("col", "A"), "a".to_string(), 1).unwrap();
    create_with(&mut store, new_card("col", "B"), "b".to_string(), 2).unwrap();
    create_with(&mut store, new_card("col", "C"), "c".to_string(), 3).unwrap();
    store
}

fn listing(store: &Store, column_id: &str) -> Vec<(String, i32)> {
    get_by_column_id(store, column_id)
        .unwrap()
        .iter()
        .map(|c| (c.content.clone(), c.position))
        .collect()
}

fn pairs(items: &[(&str, i32)]) -> Vec<(String, i32)> {
    items.iter().map(|(s, p)| (s.to_string(), *p)).collect()
}

fn row(id: &str, column_id: &str, position: i32, deleted_at: Option<i64>) -> Card {
    Card {
        id: id.to_string(),
        column_id: column_id.to_string(),
        content: id.to_uppercase(),
        score: 0,
        position,
        created_at: 0,
        updated_at: 0,
        deleted_at,
        deleted_with_column: false,
    }
}

fn at(rows: &[Card]) -> Vec<i32> {
    rows.iter().map(|c| c.position).collect()
}

#[test]
fn move_first_to_last_and_last_to_first() {
    let mut store = three();
    let moved = move_to_position_with(&mut store, "a", 2, 10).unwrap();
    assert_eq!(moved.position, 2);
    assert_eq!(moved.updated_at, 10);
    assert_eq!(listing(&store, "col"), pairs(&[("B", 0), ("C", 1), ("A", 2)]));

    let mut store = three();
    move_to_position_with(&mut store, "c", 0, 10).unwrap();
    assert_eq!(listing(&store, "col"), pairs(&[("C", 0), ("A", 1), ("B", 2)]));
    assert_eq!(get_by_id(&store, "a").unwrap().updated_at, 10);
    assert_eq!(get_by_id(&store, "b").unwrap().updated_at, 10);
}

#[test]
fn a_move_touches_only_the_rows_between() {
    let mut store = three();
    create_with(&mut store, new_card("col", "D"), "d".to_string(), 4).unwrap();

    move_to_position_with(&mut store, "b", 2, 10).unwrap();

    assert_eq!(listing(&store, "col"), pairs(&[("A", 0), ("C", 1), ("B", 2), ("D", 3)]));
    assert_eq!(get_by_id(&store, "a").unwrap().updated_at, 1);
    assert_eq!(get_by_id(&store, "d").unwrap().updated_at, 4);
    assert_eq!(get_by_id(&store, "c").unwrap().updated_at, 10);
}

#[test]
fn an_index_beyond_the_column_is_taken_as_written() {
    let mut store = three();
    move_to_position_with(&mut store, "a", 5, 10).unwrap();
    assert_eq!(listing(&store, "col"), pairs(&[("B", 0), ("C", 1), ("A", 5)]));

    let mut store = three();
    move_to_position_with(&mut store, "b", -1, 10).unwrap();
    assert_eq!(listing(&store, "col"), pairs(&[("B", -1), ("A", 1), ("C", 2)]));

    let mut store = three();
    create_at_position_with(&mut store, new_card("col", "X"), 7, "x".to_string(), 10).unwrap();
    assert_eq!(listing(&store, "col"), pairs(&[("A", 0), ("B", 1), ("C", 2), ("X", 7)]));
    assert_eq!(get_next_position(&store, "col").unwrap(), 8);
}

#[test]
fn a_restore_after_later_deletions_returns_to_the_kept_position() {
    let mut store = three();
    soft_delete_with(&mut store, "c", 10).unwrap();
    soft_delete_with(&mut store, "b", 11).unwrap();

    let restored = restore_with(&mut store, "c", 12).unwrap();

    assert_eq!(restored.position, 2);
    assert_eq!(restored.deleted_at, None);
    assert_eq!(restored.updated_at, 12);
    assert_eq!(listing(&store, "col"), pairs(&[("A", 0), ("C", 2)]));
}

#[test]
fn restore_shifts_the_rows_that_moved_up() {
    let mut store = three();
    soft_delete_with(&mut store, "a", 10).unwrap();
    assert_eq!(listing(&store, "col"), pairs(&[("B", 0), ("C", 1)]));
    create_with(&mut store, new_card("col", "D"), "d".to_string(), 11).unwrap();

    restore_with(&mut store, "a", 12).unwrap();

    assert_eq!(listing(&store, "col"), pairs(&[("A", 0), ("B", 1), ("C", 2), ("D", 3)]));
}

#[test]
fn moving_a_card_within_its_own_column_by_transfer() {
    let mut store = three();
    let moved = move_to_column_with(&mut store, "a", "col", 10).unwrap();
    assert_eq!(moved.position, 2);
    assert_eq!(listing(&store, "col"), pairs(&[("B", 0), ("C", 1), ("A", 2)]));

    let mut store = three();
    let moved = move_to_column_with(&mut store, "c", "col", 10).unwrap();
    assert_eq!(moved.position, 3);
    assert_eq!(listing(&store, "col"), pairs(&[("A", 0), ("B", 1), ("C", 3)]));
}

#[test]
fn next_position_counts_active_cards_only() {
    let mut store = create_in_memory().unwrap();
    assert_eq!(get_next_position(&store, "col").unwrap(), 0);
    store = three();
    assert_eq!(get_next_position(&store, "col").unwrap(), 3);
    assert_eq!(get_next_position(&store, "other").unwrap(), 0);
    soft_delete_with(&mut store, "c", 10).unwrap();
    assert_eq!(get_next_position(&store, "col").unwrap(), 2);
    soft_delete_with(&mut store, "a", 11).unwrap();
    soft_delete_with(&mut store, "b", 12).unwrap();
    assert_eq!(get_next_position(&store, "col").unwrap(), 0);

    let mut columns = create_in_memory().unwrap();
    assert_eq!(repository::column::get_next_position(&columns, "deck").unwrap(), 0);
    repository::column::create_with(
        &mut columns,
        NewColumn {
            deck_id: "deck".to_string(),
            name: "x".to_string(),
        },
        "x".to_string(),
        1,
    )
    .unwrap();
    assert_eq!(repository::column::get_next_position(&columns, "deck").unwrap(), 1);
}

#[test]
fn the_last_position_of_the_table_cannot_be_passed() {
    let mut store = create_in_memory().unwrap();
    create_at_position_with(&mut store, new_card("col", "top"), i32::MAX, "top".to_string(), 1)
        .unwrap();
    create_at_position_with(&mut store, new_card("col", "low"), 0, "low".to_string(), 2).unwrap_err();
    soft_delete_with(&mut store, "top", 3).unwrap();
    create_at_position_with(&mut store, new_card("col", "low"), 0, "low".to_string(), 4).unwrap();
    create_at_position_with(&mut store, new_card("col", "max"), i32::MAX, "max".to_string(), 5)
        .unwrap();

    match get_next_position(&store, "col") {
        Err(JotDeckError::Database(detail)) => assert_eq!(detail, "position out of range"),
        other => panic!("unexpected {:?}", other),
    }
    assert!(matches!(
        create_with(&mut store, new_card("col", "more"), "more".to_string(), 6),
        Err(JotDeckError::Database(_))
    ));
    assert!(matches!(
        restore_with(&mut store, "top", 7),
        Err(JotDeckError::Database(_))
    ));
    create_with(&mut store, new_card("elsewhere", "e"), "e".to_string(), 8).unwrap();
    assert!(matches!(
        move_to_column_with(&mut store, "e", "col", 9),
        Err(JotDeckError::Database(_))
    ));
    assert_eq!(listing(&store, "col"), pairs(&[("low", 0), ("max", i32::MAX)]));
    assert_eq!(listing(&store, "elsewhere"), pairs(&[("e", 0)]));
    assert_eq!(get_by_id(&store, "top").unwrap().deleted_at, Some(3));

    move_to_position_with(&mut store, "max", 1, 10).unwrap();
    restore_with(&mut store, "top", 11).unwrap();
    assert_eq!(listing(&store, "col"), pairs(&[("low", 0), ("max", 1), ("top", i32::MAX)]));
}

#[test]
fn score_moves_by_the_delta() {
    let mut store = three();
    assert_eq!(update_score_with(&mut store, "a", 5, 10).unwrap().score, 5);
    assert_eq!(update_score_with(&mut store, "a", -7, 11).unwrap().score, -2);
    let last = update_score_with(&mut store, "a", 0, 12).unwrap();
    assert_eq!(last.score, -2);
    assert_eq!(last.updated_at, 12);
    assert!(matches!(
        update_score_with(&mut store, "a", i32::MIN, 13),
        Err(JotDeckError::Database(_))
    ));
    assert_eq!(get_by_id(&store, "a").unwrap().updated_at, 12);
}

#[test]
fn shifting_rows_of_one_scope() {
    let mut rows = vec![
        row("a", "x", 0, None),
        row("b", "x", 1, None),
        row("c", "y", 1, None),
        row("d", "x", 2, Some(5)),
        row("e", "x", 3, None),
    ];
    let scope = "x".to_string();

    shift_rows(&mut rows, &scope, 1, None, true, 9);
    assert_eq!(at(&rows), vec![0, 2, 1, 2, 4]);
    assert_eq!(rows.iter().map(|c| c.updated_at).collect::<Vec<_>>(), vec![0, 9, 0, 0, 9]);

    shift_rows(&mut rows, &scope, 1, Some(2), false, 10);
    assert_eq!(at(&rows), vec![0, 1, 1, 2, 4]);
    shift_rows(&mut rows, &scope, 5, None, false, 11);
    assert_eq!(at(&rows), vec![0, 1, 1, 2, 4]);
    assert_eq!(highest_position_after_shift(&rows, "x", &scope, 0, None, true), Some(5));
    assert_eq!(highest_position_after_shift(&rows, "y", &scope, 0, None, true), Some(1));
    assert_eq!(highest_position_after_shift(&rows, "z", &scope, 0, None, true), None);
    assert_eq!(highest_position_after_shift(&rows, "x", &scope, 2, Some(4), false), Some(3));
    assert_eq!(at(&rows), vec![0, 1, 1, 2, 4]);
}

#[test]
fn row_operations_on_a_table() {
    let mut rows = vec![row("a", "x", 0, None), row("b", "x", 1, None), row("c", "x", 2, None)];

    insert_row(&mut rows, row("n", "x", 1, None), 5);
    assert_eq!(at(&rows), vec![0, 2, 3, 1]);

    move_row(&mut rows, 0, 3, 6);
    assert_eq!(at(&rows), vec![3, 1, 2, 0]);
    move_row(&mut rows, 1, 1, 7);
    assert_eq!(at(&rows), vec![3, 1, 2, 0]);
    assert_eq!(rows[1].updated_at, 7);

    remove_row(&mut rows, 3, 8);
    assert_eq!(at(&rows), vec![2, 0, 1, 0]);
    assert_eq!(rows[3].deleted_at, Some(8));

    reinsert_row(&mut rows, 3, 9);
    assert_eq!(at(&rows), vec![3, 1, 2, 0]);
    assert_eq!(rows[3].deleted_at, None);
    assert_eq!(rows[3].updated_at, 9);
}

#[test]
fn finding_tags_and_links() {
    let tags = vec![
        Tag {
            id: "1".to_string(),
            name: "one".to_string(),
        },
        Tag {
            id: "2".to_string(),
            name: "two".to_string(),
        },
    ];
    assert_eq!(find_tag_named(&tags, "two"), Some(1));
    assert_eq!(find_tag_named(&tags, "Two"), None);
    let links = vec![CardTag {
        card_id: "c".to_string(),
        tag_id: "1".to_string(),
    }];
    assert!(is_linked(&links, "c", "1"));
    assert!(!is_linked(&links, "1", "c"));
    assert!(!is_linked(&links, "c", "2"));

    let keys = vec![Some(Number(2)), Some(Number(1))];
    let listed = list_by(&tags, &keys, false);
    assert_eq!(listed[0].name, "two");
    assert_eq!(listed[1].name, "one");
}
