use jot_deck_core::db::{create_in_memory, Store};
use jot_deck_core::error::JotDeckError;
use jot_deck_core::models::{NewCard, NewColumn, NewDeck, SortOrder};
use jot_deck_core::repository::card::{
    create, create_at_position, create_at_position_with, create_with, get_by_column_id, get_by_id,
    get_deleted, get_deleted_by_deck, move_to_column, move_to_position, restore, soft_delete,
    soft_delete_with, update_content, update_content_with, update_score,
};
use jot_deck_core::repository;
use jot_deck_core::repository::deck;

fn setup() -> (Store, String, String) {
    let mut store = create_in_memory().unwrap();
    let d = deck::create(
        &mut store,
        NewDeck {
            name: "Test Deck".to_string(),
            sort_order: SortOrder::default(),
        },
    )
    .unwrap();
    let col = repository::column::create(
        &mut store,
        NewColumn {
            deck_id: d.id.clone(),
            name: "Test Column".to_string(),
        },
    )
    .unwrap();
    (store, d.id, col.id)
}

fn new_card(column_id: &str, content: &str) -> NewCard {
    NewCard {
        column_id: column_id.to_string(),
        content: content.to_string(),
    }
}

fn contents(store: &Store, column_id: &str) -> Vec<String> {
    get_by_column_id(store, column_id)
        .unwrap()
        .iter()
        .map(|c| c.content.clone())
        .collect()
}

fn positions(store: &Store, column_id: &str) -> Vec<i32> {
    get_by_column_id(store, column_id)
        .unwrap()
        .iter()
        .map(|c| c.position)
        .collect()
}

#[test]
fn card_test_create_card() {
    let (mut conn, _, column_id) = setup();

    let card = create(
        &mut conn,
        NewCard {
            column_id: column_id.clone(),
            content: "Test content".to_string(),
        },
    )
    .unwrap();

    assert_eq!(card.content, "Test content");
    assert_eq!(card.score, 0);
    assert_eq!(card.position, 0);
}

#[test]
fn card_test_update_score() {
    let (mut conn, _, column_id) = setup();

    let card = create(
        &mut conn,
        NewCard {
            column_id: column_id.clone(),
            content: "Test".to_string(),
        },
    )
    .unwrap();

    let updated = update_score(&mut conn, &card.id, 1).unwrap();
    assert_eq!(updated.score, 1);

    let updated = update_score(&mut conn, &card.id, -2).unwrap();
    assert_eq!(updated.score, -1);
}

#[test]
fn card_test_soft_delete_and_restore() {
    let (mut conn, _, column_id) = setup();

    let card = create(
        &mut conn,
        NewCard {
            column_id: column_id.clone(),
            content: "Test".to_string(),
        },
    )
    .unwrap();

    soft_delete(&mut conn, &card.id).unwrap();

    let deleted = get_by_id(&conn, &card.id).unwrap();
    assert!(deleted.deleted_at.is_some());

    let cards = get_by_column_id(&conn, &column_id).unwrap();
    assert!(cards.is_empty());

    let restored = restore(&mut conn, &card.id).unwrap();
    assert!(restored.deleted_at.is_none());
}

#[test]
fn test_restore_to_original_position() {
    let (mut conn, _, column_id) = setup();

    let card_a = create(&mut conn, new_card(&column_id, "A")).unwrap();
    let card_b = create(&mut conn, new_card(&column_id, "B")).unwrap();
    let _card_c = create(&mut conn, new_card(&column_id, "C")).unwrap();

    soft_delete(&mut conn, &card_b.id).unwrap();
    let cards = get_by_column_id(&conn, &column_id).unwrap();
    assert_eq!(cards.len(), 2);
    assert_eq!(cards[0].content, "A");
    assert_eq!(cards[1].content, "C");

    let restored = restore(&mut conn, &card_b.id).unwrap();
    assert_eq!(restored.position, 1);

    let cards = get_by_column_id(&conn, &column_id).unwrap();
    assert_eq!(cards.len(), 3);
    assert_eq!(cards[0].content, "A");
    assert_eq!(cards[1].content, "B");
    assert_eq!(cards[2].content, "C");

    soft_delete(&mut conn, &card_a.id).unwrap();
    let cards = get_by_column_id(&conn, &column_id).unwrap();
    assert_eq!(cards[0].content, "B");
    assert_eq!(cards[1].content, "C");

    restore(&mut conn, &card_a.id).unwrap();
    let cards = get_by_column_id(&conn, &column_id).unwrap();
    assert_eq!(cards[0].content, "A");
    assert_eq!(cards[1].content, "B");
    assert_eq!(cards[2].content, "C");
}

#[test]
fn card_test_move_card() {
    let (mut conn, _deck_id, column_id) = setup();

    let card1 = create(&mut conn, new_card(&column_id, "A")).unwrap();
    let _card2 = create(&mut conn, new_card(&column_id, "B")).unwrap();
    let _card3 = create(&mut conn, new_card(&column_id, "C")).unwrap();

    move_to_position(&mut conn, &card1.id, 2).unwrap();

    let cards = get_by_column_id(&conn, &column_id).unwrap();
    assert_eq!(cards[0].content, "B");
    assert_eq!(cards[1].content, "C");
    assert_eq!(cards[2].content, "A");
}

#[test]
fn card_test_move_to_column() {
    let (mut conn, deck_id, column_id1) = setup();

    let col2 = repository::column::create(
        &mut conn,
        NewColumn {
            deck_id: deck_id.clone(),
            name: "Column 2".to_string(),
        },
    )
    .unwrap();

    let card = create(
        &mut conn,
        NewCard {
            column_id: column_id1.clone(),
            content: "Test".to_string(),
        },
    )
    .unwrap();

    move_to_column(&mut conn, &card.id, &col2.id).unwrap();

    let cards1 = get_by_column_id(&conn, &column_id1).unwrap();
    let cards2 = get_by_column_id(&conn, &col2.id).unwrap();

    assert!(cards1.is_empty());
    assert_eq!(cards2.len(), 1);
    assert_eq!(cards2[0].content, "Test");
}

#[test]
fn move_last_card_to_front() {
    let (mut store, _, column_id) = setup();
    let _a = create(&mut store, new_card(&column_id, "A")).unwrap();
    let _b = create(&mut store, new_card(&column_id, "B")).unwrap();
    let c = create(&mut store, new_card(&column_id, "C")).unwrap();

    let moved = move_to_position(&mut store, &c.id, 0).unwrap();

    assert_eq!(moved.position, 0);
    assert_eq!(contents(&store, &column_id), vec!["C", "A", "B"]);
    assert_eq!(positions(&store, &column_id), vec![0, 1, 2]);
}

#[test]
fn move_card_to_its_own_position_changes_nothing() {
    let (mut store, _, column_id) = setup();
    let _a = create(&mut store, new_card(&column_id, "A")).unwrap();
    let b = create(&mut store, new_card(&column_id, "B")).unwrap();
    let _c = create(&mut store, new_card(&column_id, "C")).unwrap();

    move_to_position(&mut store, &b.id, 1).unwrap();

    assert_eq!(contents(&store, &column_id), vec!["A", "B", "C"]);
    assert_eq!(positions(&store, &column_id), vec![0, 1, 2]);
}

#[test]
fn move_middle_card_one_up_and_one_down() {
    let (mut store, _, column_id) = setup();
    let _a = create(&mut store, new_card(&column_id, "A")).unwrap();
    let b = create(&mut store, new_card(&column_id, "B")).unwrap();
    let _c = create(&mut store, new_card(&column_id, "C")).unwrap();
    let _d = create(&mut store, new_card(&column_id, "D")).unwrap();

    move_to_position(&mut store, &b.id, 2).unwrap();
    assert_eq!(contents(&store, &column_id), vec!["A", "C", "B", "D"]);

    move_to_position(&mut store, &b.id, 0).unwrap();
    assert_eq!(contents(&store, &column_id), vec!["B", "A", "C", "D"]);
    assert_eq!(positions(&store, &column_id), vec![0, 1, 2, 3]);
}

#[test]
fn create_at_position_shifts_later_cards() {
    let (mut store, _, column_id) = setup();
    create(&mut store, new_card(&column_id, "A")).unwrap();
    create(&mut store, new_card(&column_id, "B")).unwrap();

    let x = create_at_position(&mut store, new_card(&column_id, "X"), 1).unwrap();

    assert_eq!(x.position, 1);
    assert_eq!(x.score, 0);
    assert_eq!(contents(&store, &column_id), vec!["A", "X", "B"]);
    assert_eq!(positions(&store, &column_id), vec![0, 1, 2]);

    create_at_position(&mut store, new_card(&column_id, "Y"), 0).unwrap();
    create_at_position(&mut store, new_card(&column_id, "Z"), 4).unwrap();
    assert_eq!(contents(&store, &column_id), vec!["Y", "A", "X", "B", "Z"]);
    assert_eq!(positions(&store, &column_id), vec![0, 1, 2, 3, 4]);
}

#[test]
fn positions_stay_gap_free_over_a_run_of_operations() {
    let (mut store, _, column_id) = setup();
    let a = create(&mut store, new_card(&column_id, "A")).unwrap();
    let b = create(&mut store, new_card(&column_id, "B")).unwrap();
    let c = create(&mut store, new_card(&column_id, "C")).unwrap();
    let d = create_at_position(&mut store, new_card(&column_id, "D"), 1).unwrap();
    assert_eq!(positions(&store, &column_id), vec![0, 1, 2, 3]);

    move_to_position(&mut store, &a.id, 3).unwrap();
    assert_eq!(positions(&store, &column_id), vec![0, 1, 2, 3]);
    assert_eq!(contents(&store, &column_id), vec!["D", "B", "C", "A"]);

    soft_delete(&mut store, &b.id).unwrap();
    assert_eq!(positions(&store, &column_id), vec![0, 1, 2]);
    assert_eq!(contents(&store, &column_id), vec!["D", "C", "A"]);

    move_to_position(&mut store, &c.id, 0).unwrap();
    assert_eq!(contents(&store, &column_id), vec!["C", "D", "A"]);

    restore(&mut store, &b.id).unwrap();
    assert_eq!(positions(&store, &column_id), vec![0, 1, 2, 3]);
    assert_eq!(contents(&store, &column_id), vec!["C", "B", "D", "A"]);

    soft_delete(&mut store, &d.id).unwrap();
    soft_delete(&mut store, &a.id).unwrap();
    assert_eq!(positions(&store, &column_id), vec![0, 1]);
    assert!(positions(&store, "no such column").is_empty());
}

#[test]
fn deleted_card_keeps_its_position() {
    let (mut store, _, column_id) = setup();
    let _a = create(&mut store, new_card(&column_id, "A")).unwrap();
    let b = create(&mut store, new_card(&column_id, "B")).unwrap();
    let c = create(&mut store, new_card(&column_id, "C")).unwrap();

    soft_delete(&mut store, &b.id).unwrap();

    let in_bin = get_by_id(&store, &b.id).unwrap();
    assert_eq!(in_bin.position, 1);
    assert!(!in_bin.deleted_with_column);
    assert_eq!(get_by_id(&store, &c.id).unwrap().position, 1);
}

#[test]
fn move_to_column_appends_and_compacts() {
    let (mut store, deck_id, first) = setup();
    let second = repository::column::create(
        &mut store,
        NewColumn {
            deck_id: deck_id.clone(),
            name: "Second".to_string(),
        },
    )
    .unwrap();
    let a = create(&mut store, new_card(&first, "A")).unwrap();
    create(&mut store, new_card(&first, "B")).unwrap();
    create(&mut store, new_card(&first, "C")).unwrap();
    create(&mut store, new_card(&second.id, "X")).unwrap();

    let moved = move_to_column(&mut store, &a.id, &second.id).unwrap();

    assert_eq!(moved.column_id, second.id);
    assert_eq!(moved.position, 1);
    assert_eq!(contents(&store, &first), vec!["B", "C"]);
    assert_eq!(positions(&store, &first), vec![0, 1]);
    assert_eq!(contents(&store, &second.id), vec!["X", "A"]);
    assert_eq!(positions(&store, &second.id), vec![0, 1]);
}

#[test]
fn update_content_replaces_text_and_keeps_the_rest() {
    let (mut store, _, column_id) = setup();
    let card = create(&mut store, new_card(&column_id, "old")).unwrap();
    update_score(&mut store, &card.id, 5).unwrap();

    let updated = update_content(&mut store, &card.id, "new #text").unwrap();

    assert_eq!(updated.content, "new #text");
    assert_eq!(updated.score, 5);
    assert_eq!(updated.position, 0);
    assert_eq!(updated.created_at, card.created_at);
    assert!(updated.updated_at >= updated.created_at);
    assert_eq!(get_by_id(&store, &card.id).unwrap().content, "new #text");
}

#[test]
fn operations_with_given_clock_store_it() {
    let (mut store, _, column_id) = setup();
    let card = create_with(&mut store, new_card(&column_id, "A"), "card-1".to_string(), 1_000).unwrap();
    assert_eq!(card.id, "card-1");
    assert_eq!(card.created_at, 1_000);
    assert_eq!(card.updated_at, 1_000);
    assert_eq!(card.deleted_at, None);

    let other =
        create_at_position_with(&mut store, new_card(&column_id, "B"), 0, "card-2".to_string(), 2_000)
            .unwrap();
    assert_eq!(other.position, 0);
    let shifted = get_by_id(&store, "card-1").unwrap();
    assert_eq!(shifted.position, 1);
    assert_eq!(shifted.updated_at, 2_000);

    let updated = update_content_with(&mut store, "card-1", "C", 3_000).unwrap();
    assert_eq!(updated.updated_at, 3_000);
    assert_eq!(updated.created_at, 1_000);

    soft_delete_with(&mut store, "card-2", 4_000).unwrap();
    let gone = get_by_id(&store, "card-2").unwrap();
    assert_eq!(gone.deleted_at, Some(4_000));
    assert_eq!(gone.updated_at, 4_000);
    let left = get_by_id(&store, "card-1").unwrap();
    assert_eq!(left.position, 0);
    assert_eq!(left.updated_at, 4_000);
}

#[test]
fn an_identifier_that_is_taken_is_a_storage_failure() {
    let (mut store, _, column_id) = setup();
    create_with(&mut store, new_card(&column_id, "A"), "same".to_string(), 1).unwrap();

    let second = create_with(&mut store, new_card(&column_id, "B"), "same".to_string(), 2);

    assert!(matches!(second, Err(JotDeckError::Database(_))));
    assert_eq!(contents(&store, &column_id), vec!["A"]);
    let third = create_at_position_with(&mut store, new_card(&column_id, "C"), 0, "same".to_string(), 3);
    assert!(matches!(third, Err(JotDeckError::Database(_))));
    assert_eq!(positions(&store, &column_id), vec![0]);
}

#[test]
fn card_errors_name_the_failed_transition() {
    let (mut store, _, column_id) = setup();
    let card = create(&mut store, new_card(&column_id, "A")).unwrap();

    let missing = get_by_id(&store, "nope");
    match missing {
        Err(JotDeckError::NotFound(detail)) => assert_eq!(detail, "Card not found: nope"),
        other => panic!("unexpected {:?}", other),
    }
    assert!(matches!(
        soft_delete(&mut store, "nope"),
        Err(JotDeckError::NotFound(_))
    ));
    assert!(matches!(
        restore(&mut store, "nope"),
        Err(JotDeckError::NotFound(_))
    ));

    match restore(&mut store, &card.id) {
        Err(JotDeckError::InvalidOperation(detail)) => assert_eq!(detail, "Card is not deleted"),
        other => panic!("unexpected {:?}", other),
    }

    soft_delete(&mut store, &card.id).unwrap();
    match soft_delete(&mut store, &card.id) {
        Err(JotDeckError::InvalidOperation(detail)) => {
            assert_eq!(detail, "Card is already deleted")
        }
        other => panic!("unexpected {:?}", other),
    }
    match update_content(&mut store, &card.id, "x") {
        Err(JotDeckError::InvalidOperation(detail)) => {
            assert_eq!(detail, "Cannot update deleted card")
        }
        other => panic!("unexpected {:?}", other),
    }
    match update_score(&mut store, &card.id, 1) {
        Err(JotDeckError::InvalidOperation(detail)) => {
            assert_eq!(detail, "Cannot update deleted card")
        }
        other => panic!("unexpected {:?}", other),
    }
    match move_to_position(&mut store, &card.id, 0) {
        Err(JotDeckError::InvalidOperation(detail)) => {
            assert_eq!(detail, "Cannot move deleted card")
        }
        other => panic!("unexpected {:?}", other),
    }
    match move_to_column(&mut store, &card.id, "elsewhere") {
        Err(JotDeckError::InvalidOperation(detail)) => {
            assert_eq!(detail, "Cannot move deleted card")
        }
        other => panic!("unexpected {:?}", other),
    }
}

#[test]
fn score_that_leaves_the_range_is_refused() {
    let (mut store, _, column_id) = setup();
    let card = create(&mut store, new_card(&column_id, "A")).unwrap();
    update_score(&mut store, &card.id, i32::MAX).unwrap();

    let over = update_score(&mut store, &card.id, 1);

    assert!(matches!(over, Err(JotDeckError::Database(_))));
    assert_eq!(get_by_id(&store, &card.id).unwrap().score, i32::MAX);
}

#[test]
fn bin_lists_last_deleted_first() {
    let (mut store, deck_id, column_id) = setup();
    create_with(&mut store, new_card(&column_id, "A"), "a".to_string(), 10).unwrap();
    create_with(&mut store, new_card(&column_id, "B"), "b".to_string(), 20).unwrap();
    create_with(&mut store, new_card(&column_id, "C"), "c".to_string(), 30).unwrap();
    soft_delete_with(&mut store, "a", 100).unwrap();
    soft_delete_with(&mut store, "c", 300).unwrap();
    soft_delete_with(&mut store, "b", 200).unwrap();

    let by_column: Vec<String> = get_deleted(&store, &column_id)
        .unwrap()
        .iter()
        .map(|c| c.content.clone())
        .collect();
    assert_eq!(by_column, vec!["C", "B", "A"]);

    let by_deck: Vec<String> = get_deleted_by_deck(&store, &deck_id)
        .unwrap()
        .iter()
        .map(|c| c.content.clone())
        .collect();
    assert_eq!(by_deck, vec!["C", "B", "A"]);
    assert!(get_deleted_by_deck(&store, "other deck").unwrap().is_empty());
    assert!(get_deleted(&store, "other column").unwrap().is_empty());
}
