use chrono::{Duration, Utc};
use jot_deck_core::cleanup::{cleanup_old_deleted, cleanup_with_threshold, run_cleanup_batch, CleanupResult};
use jot_deck_core::clock::{threshold_at, DELETE_AFTER_DAYS, MICROS_PER_DAY};
use jot_deck_core::db::{create_in_memory, Store};
use jot_deck_core::models::{Card, Column, NewCard, NewColumn, NewDeck, SortOrder};
use jot_deck_core::repository;
use jot_deck_core::repository::{card, deck, tag};

fn rebuilt(store: &Store, columns: Vec<Column>, cards: Vec<Card>) -> Store {
    Store::from_rows(
        store.decks().clone(),
        columns,
        cards,
        store.tags().clone(),
        store.card_tags().clone(),
    )
    .unwrap()
}

fn with_card_deleted_at(store: &Store, card_id: &str, at: i64) -> Store {
    let mut cards = store.cards().clone();
    for c in cards.iter_mut() {
        if c.id == card_id {
            c.deleted_at = Some(at);
        }
    }
    rebuilt(store, store.columns().clone(), cards)
}

fn with_column_deleted_at(store: &Store, column_id: &str, at: i64) -> Store {
    let mut columns = store.columns().clone();
    for c in columns.iter_mut() {
        if c.id == column_id {
            c.deleted_at = Some(at);
        }
    }
    let mut cards = store.cards().clone();
    for c in cards.iter_mut() {
        if c.column_id == column_id {
            c.deleted_at = Some(at);
        }
    }
    rebuilt(store, columns, cards)
}

fn setup() -> (Store, String, String) {
    let mut store = create_in_memory().unwrap();
    let d = deck::create(
        &mut store,
        NewDeck {
            name: "Test".to_string(),
            sort_order: SortOrder::default(),
        },
    )
    .unwrap();
    let col = repository::column::create(
        &mut store,
        NewColumn {
            deck_id: d.id.clone(),
            name: "Col".to_string(),
        },
    )
    .unwrap();
    (store, d.id, col.id)
}

#[test]
fn test_cleanup_old_deleted() {
    let (mut conn, _, column_id) = setup();

    let c = card::create(
        &mut conn,
        NewCard {
            column_id: column_id.clone(),
            content: "#test content".to_string(),
        },
    )
    .unwrap();

    tag::sync_card_tags(&mut conn, &c.id, &c.content).unwrap();

    card::soft_delete(&mut conn, &c.id).unwrap();

    let result = cleanup_old_deleted(&mut conn).unwrap();
    assert_eq!(result.deleted_cards, 0);

    let old_date = (Utc::now() - Duration::days(31)).timestamp_micros();
    let mut conn = with_card_deleted_at(&conn, &c.id, old_date);

    let result = cleanup_old_deleted(&mut conn).unwrap();
    assert_eq!(result.deleted_cards, 1);
    assert_eq!(result.deleted_orphan_tags, 1);

    let cards: Vec<String> = conn
        .cards()
        .iter()
        .filter(|row| row.id == c.id)
        .map(|row| row.id.clone())
        .collect();
    assert!(cards.is_empty());
}

#[test]
fn test_cleanup_column_with_cards() {
    let (mut conn, _, column_id) = setup();

    card::create(
        &mut conn,
        NewCard {
            column_id: column_id.clone(),
            content: "Card 1".to_string(),
        },
    )
    .unwrap();

    card::create(
        &mut conn,
        NewCard {
            column_id: column_id.clone(),
            content: "Card 2".to_string(),
        },
    )
    .unwrap();

    repository::column::soft_delete(&mut conn, &column_id).unwrap();

    let old_date = (Utc::now() - Duration::days(31)).timestamp_micros();
    let mut conn = with_column_deleted_at(&conn, &column_id, old_date);

    let result = cleanup_old_deleted(&mut conn).unwrap();
    assert_eq!(result.deleted_columns, 1);
    assert_eq!(result.deleted_cards, 2);
}

#[test]
fn threshold_is_thirty_days_before_now() {
    assert_eq!(DELETE_AFTER_DAYS, 30);
    assert_eq!(MICROS_PER_DAY, 86_400_000_000);
    assert_eq!(threshold_at(0), -2_592_000_000_000);
    assert_eq!(threshold_at(2_592_000_000_000), 0);
    assert_eq!(threshold_at(1_700_000_000_000_000), 1_697_408_000_000_000);
}

#[test]
fn cleanup_spares_what_is_at_the_threshold_or_younger() {
    let (mut store, _, column_id) = setup();
    for (id, content) in [("old", "#o"), ("edge", "#e"), ("young", "#y"), ("live", "#l")] {
        card::create_with(
            &mut store,
            NewCard {
                column_id: column_id.clone(),
                content: content.to_string(),
            },
            id.to_string(),
            1,
        )
        .unwrap();
        tag::sync_card_tags(&mut store, id, content).unwrap();
    }
    card::soft_delete_with(&mut store, "old", 999).unwrap();
    card::soft_delete_with(&mut store, "edge", 1_000).unwrap();
    card::soft_delete_with(&mut store, "young", 1_001).unwrap();

    let result = cleanup_with_threshold(&mut store, 1_000).unwrap();

    assert_eq!(result.deleted_cards, 1);
    assert_eq!(result.deleted_columns, 0);
    assert_eq!(result.deleted_orphan_tags, 1);
    let left: Vec<String> = store.cards().iter().map(|c| c.id.clone()).collect();
    assert_eq!(left, vec!["edge", "young", "live"]);
    let tags: Vec<String> = store.tags().iter().map(|t| t.name.clone()).collect();
    assert_eq!(tags, vec!["e", "y", "l"]);
    assert_eq!(store.card_tags().len(), 3);
    assert!(store.card_tags().iter().all(|l| l.card_id != "old"));

    let again = cleanup_with_threshold(&mut store, 1_000).unwrap();
    assert_eq!(again.deleted_cards, 0);
    assert_eq!(again.deleted_orphan_tags, 0);

    let later = cleanup_with_threshold(&mut store, 1_002).unwrap();
    assert_eq!(later.deleted_cards, 2);
    assert_eq!(later.deleted_orphan_tags, 2);
    assert_eq!(store.cards().len(), 1);
}

#[test]
fn cleanup_removes_tags_that_lost_their_links_before() {
    let (mut store, _, column_id) = setup();
    let c = card::create(
        &mut store,
        NewCard {
            column_id: column_id.clone(),
            content: "#a #b".to_string(),
        },
    )
    .unwrap();
    tag::sync_card_tags(&mut store, &c.id, "#a #b").unwrap();
    tag::sync_card_tags(&mut store, &c.id, "#b").unwrap();
    assert_eq!(store.tags().len(), 2);

    let result = run_cleanup_batch(&mut store).unwrap();

    assert_eq!(result.deleted_orphan_tags, 1);
    assert_eq!(result.deleted_cards, 0);
    assert_eq!(result.deleted_columns, 0);
    assert_eq!(store.tags().len(), 1);
    assert_eq!(store.tags()[0].name, "b");
}

#[test]
fn cleanup_of_an_empty_store_counts_nothing() {
    let mut store = create_in_memory().unwrap();
    let result = cleanup_with_threshold(&mut store, i64::MAX).unwrap();
    assert_eq!(result.deleted_cards, 0);
    assert_eq!(result.deleted_columns, 0);
    assert_eq!(result.deleted_orphan_tags, 0);
    let zero = CleanupResult::default();
    assert_eq!(zero.deleted_cards + zero.deleted_columns + zero.deleted_orphan_tags, 0);
}
