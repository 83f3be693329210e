use jot_deck_core::db::create_in_memory;
use jot_deck_core::error::JotDeckError;
use jot_deck_core::models::{NewCard, NewColumn, NewDeck, SortOrder};
use jot_deck_core::repository;
use jot_deck_core::repository::card;
use jot_deck_core::repository::deck::{
    create, create_with, delete, get_all, get_by_id, update, update_with,
};
use jot_deck_core::repository::tag;

#[test]
fn test_create_deck() {
    let mut conn = create_in_memory().unwrap();

    let new_deck = NewDeck {
        name: "My Deck".to_string(),
        sort_order: SortOrder::default(),
    };

    let deck = create(&mut conn, new_deck).unwrap();

    assert_eq!(deck.name, "My Deck");
    assert_eq!(deck.sort_order, SortOrder::CreatedDesc);
}

#[test]
fn test_get_deck_by_id() {
    let mut conn = create_in_memory().unwrap();

    let new_deck = NewDeck {
        name: "My Deck".to_string(),
        sort_order: SortOrder::default(),
    };

    let created = create(&mut conn, new_deck).unwrap();
    let fetched = get_by_id(&conn, &created.id).unwrap();

    assert_eq!(created.id, fetched.id);
    assert_eq!(created.name, fetched.name);
}

#[test]
fn test_get_deck_not_found() {
    let conn = create_in_memory().unwrap();

    let result = get_by_id(&conn, "nonexistent");

    assert!(matches!(result, Err(JotDeckError::NotFound(_))));
}

#[test]
fn test_update_deck() {
    let mut conn = create_in_memory().unwrap();

    let new_deck = NewDeck {
        name: "My Deck".to_string(),
        sort_order: SortOrder::default(),
    };

    let deck = create(&mut conn, new_deck).unwrap();
    let updated = update(
        &mut conn,
        &deck.id,
        Some("Updated Deck"),
        Some(SortOrder::ScoreDesc),
    )
    .unwrap();

    assert_eq!(updated.name, "Updated Deck");
    assert_eq!(updated.sort_order, SortOrder::ScoreDesc);
}

#[test]
fn test_delete_deck() {
    let mut conn = create_in_memory().unwrap();

    let new_deck = NewDeck {
        name: "My Deck".to_string(),
        sort_order: SortOrder::default(),
    };

    let deck = create(&mut conn, new_deck).unwrap();
    delete(&mut conn, &deck.id).unwrap();

    let result = get_by_id(&conn, &deck.id);
    assert!(matches!(result, Err(JotDeckError::NotFound(_))));
}

#[test]
fn test_get_all_decks() {
    let mut conn = create_in_memory().unwrap();

    create(
        &mut conn,
        NewDeck {
            name: "Deck 1".to_string(),
            sort_order: SortOrder::default(),
        },
    )
    .unwrap();

    create(
        &mut conn,
        NewDeck {
            name: "Deck 2".to_string(),
            sort_order: SortOrder::default(),
        },
    )
    .unwrap();

    let decks = get_all(&conn).unwrap();
    assert_eq!(decks.len(), 2);
}

fn deck_named(name: &str) -> NewDeck {
    NewDeck {
        name: name.to_string(),
        sort_order: SortOrder::ScoreAsc,
    }
}

#[test]
fn decks_are_listed_newest_first() {
    let mut store = create_in_memory().unwrap();
    create_with(&mut store, deck_named("middle"), "m".to_string(), 200).unwrap();
    create_with(&mut store, deck_named("oldest"), "o".to_string(), 100).unwrap();
    create_with(&mut store, deck_named("newest"), "n".to_string(), 300).unwrap();
    create_with(&mut store, deck_named("middle too"), "m2".to_string(), 200).unwrap();

    let names: Vec<String> = get_all(&store).unwrap().iter().map(|d| d.name.clone()).collect();

    assert_eq!(names, vec!["newest", "middle", "middle too", "oldest"]);
}

#[test]
fn deck_update_keeps_what_is_not_given() {
    let mut store = create_in_memory().unwrap();
    create_with(&mut store, deck_named("deck"), "d".to_string(), 5).unwrap();

    let same = update_with(&mut store, "d", None, None, 9).unwrap();
    assert_eq!(same.name, "deck");
    assert_eq!(same.sort_order, SortOrder::ScoreAsc);
    assert_eq!(same.created_at, 5);
    assert_eq!(same.updated_at, 9);

    let renamed = update_with(&mut store, "d", Some("other"), None, 10).unwrap();
    assert_eq!(renamed.name, "other");
    assert_eq!(renamed.sort_order, SortOrder::ScoreAsc);

    match update(&mut store, "nope", None, None) {
        Err(JotDeckError::NotFound(detail)) => assert_eq!(detail, "Deck not found: nope"),
        other => panic!("unexpected {:?}", other),
    }
    assert!(matches!(
        create_with(&mut store, deck_named("again"), "d".to_string(), 11),
        Err(JotDeckError::Database(_))
    ));
    assert!(matches!(delete(&mut store, "nope"), Err(JotDeckError::NotFound(_))));
}

#[test]
fn deck_delete_removes_its_columns_and_their_cards() {
    let mut store = create_in_memory().unwrap();
    let doomed = create(&mut store, deck_named("doomed")).unwrap();
    let spared = create(&mut store, deck_named("spared")).unwrap();
    let col_a = repository::column::create(
        &mut store,
        NewColumn {
            deck_id: doomed.id.clone(),
            name: "a".to_string(),
        },
    )
    .unwrap();
    let col_b = repository::column::create(
        &mut store,
        NewColumn {
            deck_id: doomed.id.clone(),
            name: "b".to_string(),
        },
    )
    .unwrap();
    let col_s = repository::column::create(
        &mut store,
        NewColumn {
            deck_id: spared.id.clone(),
            name: "s".to_string(),
        },
    )
    .unwrap();
    let card_a = card::create(
        &mut store,
        NewCard {
            column_id: col_a.id.clone(),
            content: "in a #kept".to_string(),
        },
    )
    .unwrap();
    let card_b = card::create(
        &mut store,
        NewCard {
            column_id: col_b.id.clone(),
            content: "in b".to_string(),
        },
    )
    .unwrap();
    let card_s = card::create(
        &mut store,
        NewCard {
            column_id: col_s.id.clone(),
            content: "in s".to_string(),
        },
    )
    .unwrap();
    tag::sync_card_tags(&mut store, &card_a.id, &card_a.content).unwrap();
    card::soft_delete(&mut store, &card_b.id).unwrap();
    repository::column::soft_delete(&mut store, &col_b.id).unwrap();

    delete(&mut store, &doomed.id).unwrap();

    assert!(matches!(get_by_id(&store, &doomed.id), Err(JotDeckError::NotFound(_))));
    for id in [&col_a.id, &col_b.id] {
        assert!(matches!(
            repository::column::get_by_id(&store, id),
            Err(JotDeckError::NotFound(_))
        ));
    }
    for id in [&card_a.id, &card_b.id] {
        assert!(matches!(card::get_by_id(&store, id), Err(JotDeckError::NotFound(_))));
    }
    assert!(get_by_id(&store, &spared.id).is_ok());
    assert!(repository::column::get_by_id(&store, &col_s.id).is_ok());
    assert!(card::get_by_id(&store, &card_s.id).is_ok());
    assert_eq!(store.tags().len(), 1);
    assert_eq!(store.card_tags().len(), 1);
    assert_eq!(store.decks().len(), 1);
    assert_eq!(store.columns().len(), 1);
    assert_eq!(store.cards().len(), 1);
}

#[test]
fn sort_order_words() {
    assert_eq!(SortOrder::CreatedDesc.to_db_value(), "created_desc");
    assert_eq!(SortOrder::CreatedAsc.to_db_value(), "created_asc");
    assert_eq!(SortOrder::ScoreDesc.to_db_value(), "score_desc");
    assert_eq!(SortOrder::ScoreAsc.to_db_value(), "score_asc");
    assert_eq!(SortOrder::from_db_value("created_desc"), SortOrder::CreatedDesc);
    assert_eq!(SortOrder::from_db_value("created_asc"), SortOrder::CreatedAsc);
    assert_eq!(SortOrder::from_db_value("score_desc"), SortOrder::ScoreDesc);
    assert_eq!(SortOrder::from_db_value("score_asc"), SortOrder::ScoreAsc);
    assert_eq!(SortOrder::from_db_value("Score_Asc"), SortOrder::CreatedDesc);
    assert_eq!(SortOrder::from_db_value(""), SortOrder::CreatedDesc);
    assert_eq!(SortOrder::default(), SortOrder::CreatedDesc);
}
