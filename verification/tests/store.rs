use jot_deck_core::clock::{format_datetime, parse_datetime, parse_datetime_opt};
use jot_deck_core::db::{create_in_memory, keys_distinct, links_distinct, names_distinct, Store};
use jot_deck_core::error::{database, invalid_operation, not_found, JotDeckError};
use jot_deck_core::listing::{copies, kept, ordered_places, pick, Number};
use jot_deck_core::models::{Card, CardTag, Column, Deck, SortOrder, Tag};
use jot_deck_core::rows::{
    card_of_row, card_to_row, column_of_row, column_to_row, deck_of_row, deck_to_row, row_to_card,
    row_to_column, row_to_deck, CardRow, ColumnRow, DeckRow,
};
use jot_deck_core::sibling::{find_row, highest_position};
use jot_deck_core::text::{has_prefix, text_is_le};

fn tag(id: &str, name: &str) -> Tag {
    Tag {
        id: id.to_string(),
        name: name.to_string(),
    }
}

fn card(id: &str, column_id: &str, position: i32, deleted_at: Option<i64>) -> Card {
    Card {
        id: id.to_string(),
        column_id: column_id.to_string(),
        content: String::new(),
        score: 0,
        position,
        created_at: 0,
        updated_at: 0,
        deleted_at,
        deleted_with_column: false,
    }
}

#[test]
fn a_new_store_is_empty() {
    let store = create_in_memory().unwrap();
    assert!(store.decks().is_empty());
    assert!(store.columns().is_empty());
    assert!(store.cards().is_empty());
    assert!(store.tags().is_empty());
    assert!(store.card_tags().is_empty());
    assert!(Store::new().cards().is_empty());
}

#[test]
fn from_rows_keeps_rows_and_refuses_double_keys() {
    let ok = Store::from_rows(
        vec![],
        vec![],
        vec![card("a", "col", 0, None), card("b", "col", 1, None)],
        vec![tag("t1", "x"), tag("t2", "y")],
        vec![CardTag {
            card_id: "a".to_string(),
            tag_id: "t1".to_string(),
        }],
    )
    .unwrap();
    assert_eq!(ok.cards().len(), 2);
    assert_eq!(ok.cards()[1].id, "b");
    assert_eq!(ok.tags()[0].name, "x");

    let twice = Store::from_rows(
        vec![],
        vec![],
        vec![card("a", "col", 0, None), card("a", "col", 1, None)],
        vec![],
        vec![],
    );
    match twice {
        Err(JotDeckError::Database(detail)) => assert_eq!(detail, "UNIQUE constraint failed"),
        _ => panic!("double identifier accepted"),
    }
    assert!(Store::from_rows(vec![], vec![], vec![], vec![tag("t1", "x"), tag("t2", "x")], vec![]).is_err());
    assert!(Store::from_rows(vec![], vec![], vec![], vec![tag("t1", "x"), tag("t1", "y")], vec![]).is_err());
    let link = || CardTag {
        card_id: "a".to_string(),
        tag_id: "t".to_string(),
    };
    assert!(Store::from_rows(vec![], vec![], vec![], vec![], vec![link(), link()]).is_err());
}

#[test]
fn distinct_checks() {
    let cards = vec![card("a", "c", 0, None), card("b", "c", 0, None)];
    assert!(keys_distinct(&cards));
    let cards = vec![card("a", "c", 0, None), card("b", "c", 0, None), card("a", "d", 1, None)];
    assert!(!keys_distinct(&cards));
    assert!(names_distinct(&vec![tag("1", "a"), tag("2", "A")]));
    assert!(!names_distinct(&vec![tag("1", "a"), tag("2", "a")]));
    let l = |c: &str, t: &str| CardTag {
        card_id: c.to_string(),
        tag_id: t.to_string(),
    };
    assert!(links_distinct(&vec![l("a", "b"), l("b", "a"), l("a", "a")]));
    assert!(!links_distinct(&vec![l("a", "b"), l("b", "a"), l("a", "b")]));
    assert!(keys_distinct(&Vec::<Deck>::new()));
}

#[test]
fn find_and_highest() {
    let cards = vec![
        card("a", "c1", 0, None),
        card("b", "c1", 5, Some(1)),
        card("c", "c1", 2, None),
        card("d", "c2", -3, None),
    ];
    assert_eq!(find_row(&cards, "c"), Some(2));
    assert_eq!(find_row(&cards, "a"), Some(0));
    assert_eq!(find_row(&cards, "z"), None);
    assert_eq!(highest_position(&cards, "c1"), Some(2));
    assert_eq!(highest_position(&cards, "c2"), Some(-3));
    assert_eq!(highest_position(&cards, "c3"), None);
}

#[test]
fn error_messages() {
    assert_eq!(not_found("Card not found: ", "x").message(), "Not found: Card not found: x");
    assert_eq!(
        invalid_operation("Card is not deleted").message(),
        "Invalid operation: Card is not deleted"
    );
    assert_eq!(database("disk full").message(), "Database error: disk full");
}

#[test]
fn text_order_and_prefix() {
    assert!(text_is_le("", ""));
    assert!(text_is_le("", "a"));
    assert!(!text_is_le("a", ""));
    assert!(text_is_le("a", "a"));
    assert!(text_is_le("a", "ab"));
    assert!(!text_is_le("ab", "a"));
    assert!(text_is_le("Z", "a"));
    assert!(!text_is_le("b", "a"));
    assert!(text_is_le("abc", "abd"));
    assert!(text_is_le("z", "あ"));
    assert!(!text_is_le("あ", "z"));
    assert!(has_prefix("project", "pro"));
    assert!(has_prefix("project", ""));
    assert!(has_prefix("pro", "pro"));
    assert!(!has_prefix("pr", "pro"));
    assert!(!has_prefix("Project", "pro"));
    assert!(has_prefix("あいう", "あい"));
}

#[test]
fn ordering_is_stable_and_skips_rows_without_a_key() {
    let keys = vec![
        Some(Number(3)),
        None,
        Some(Number(1)),
        Some(Number(3)),
        Some(Number(2)),
        Some(Number(1)),
    ];
    assert_eq!(ordered_places(&keys, false), vec![2, 5, 4, 0, 3]);
    assert_eq!(ordered_places(&keys, true), vec![0, 3, 4, 2, 5]);
    assert!(ordered_places(&Vec::<Option<Number>>::new(), false).is_empty());
    let words = vec![Some("b".to_string()), Some("a".to_string()), None, Some("ab".to_string())];
    assert_eq!(ordered_places(&words, false), vec![1, 3, 0]);

    let tags = vec![tag("1", "x"), tag("2", "y"), tag("3", "z")];
    let picked = pick(&tags, &vec![2, 0]);
    assert_eq!(picked[0].name, "z");
    assert_eq!(picked[1].name, "x");
    let some = kept(&tags, &vec![true, false, true]);
    assert_eq!(some.len(), 2);
    assert_eq!(some[1].id, "3");
    assert_eq!(copies(&tags).len(), 3);
}

#[test]
fn instants_are_read_and_written_as_rfc_3339() {
    assert_eq!(parse_datetime("1970-01-01T00:00:00+00:00").unwrap(), 0);
    assert_eq!(parse_datetime("1970-01-01T00:00:01.000444Z").unwrap(), 1_000_444);
    assert_eq!(parse_datetime("2001-09-09T01:46:40.000555+00:00").unwrap(), 1_000_000_000_000_555);
    assert_eq!(parse_datetime("1996-12-19T16:39:57-08:00").unwrap(), 851_042_397_000_000);
    assert_eq!(parse_datetime("1969-12-31T23:59:59Z").unwrap(), -1_000_000);
    assert!(matches!(parse_datetime("yesterday"), Err(JotDeckError::Database(_))));
    assert!(matches!(parse_datetime(""), Err(JotDeckError::Database(_))));
    assert_eq!(parse_datetime_opt("1970-01-01T00:00:00Z"), Some(0));
    assert_eq!(parse_datetime_opt("1970-01-01 00:00:00"), None);

    assert_eq!(format_datetime(0).unwrap(), "1970-01-01T00:00:00+00:00");
    assert_eq!(format_datetime(1_000_444).unwrap(), "1970-01-01T00:00:01.000444+00:00");
    assert_eq!(format_datetime(1_500_000).unwrap(), "1970-01-01T00:00:01.500+00:00");
    assert_eq!(format_datetime(-1_000_000).unwrap(), "1969-12-31T23:59:59+00:00");
    assert!(matches!(format_datetime(i64::MAX), Err(JotDeckError::Database(_))));
    let now = 1_700_000_000_123_456;
    assert_eq!(parse_datetime(&format_datetime(now).unwrap()).unwrap(), now);
}

#[test]
fn rows_are_read() {
    let deck = row_to_deck(DeckRow {
        id: "d".to_string(),
        name: "Deck".to_string(),
        sort_order: "score_desc".to_string(),
        created_at: "1970-01-01T00:00:01Z".to_string(),
        updated_at: "1970-01-01T00:00:02Z".to_string(),
    })
    .unwrap();
    assert_eq!(deck.sort_order, SortOrder::ScoreDesc);
    assert_eq!(deck.created_at, 1_000_000);
    assert_eq!(deck.updated_at, 2_000_000);

    let column = row_to_column(ColumnRow {
        id: "c".to_string(),
        deck_id: "d".to_string(),
        name: "Col".to_string(),
        position: 4,
        created_at: "1970-01-01T00:00:01Z".to_string(),
        updated_at: "1970-01-01T00:00:02Z".to_string(),
        deleted_at: Some("1970-01-01T00:00:03Z".to_string()),
    })
    .unwrap();
    assert_eq!(column.position, 4);
    assert_eq!(column.deleted_at, Some(3_000_000));

    let row = |created: &str, deleted: Option<&str>, flag: i32| CardRow {
        id: "k".to_string(),
        column_id: "c".to_string(),
        content: "text".to_string(),
        score: -2,
        position: 1,
        created_at: created.to_string(),
        updated_at: "1970-01-01T00:00:02Z".to_string(),
        deleted_at: deleted.map(|s| s.to_string()),
        deleted_with_column: flag,
    };
    let card = row_to_card(row("1970-01-01T00:00:01Z", None, 0)).unwrap();
    assert_eq!(card.score, -2);
    assert_eq!(card.deleted_at, None);
    assert!(!card.deleted_with_column);
    let card = row_to_card(row("1970-01-01T00:00:01Z", Some("1970-01-01T00:00:09Z"), 1)).unwrap();
    assert_eq!(card.deleted_at, Some(9_000_000));
    assert!(card.deleted_with_column);
    let card = row_to_card(row("1970-01-01T00:00:01Z", Some("garbage"), 7)).unwrap();
    assert_eq!(card.deleted_at, None);
    assert!(card.deleted_with_column);
    assert!(matches!(
        row_to_card(row("garbage", None, 0)),
        Err(JotDeckError::Database(_))
    ));
}

#[test]
fn rows_are_written_and_read_back() {
    let card = Card {
        id: "k".to_string(),
        column_id: "c".to_string(),
        content: "text #tag".to_string(),
        score: 3,
        position: 2,
        created_at: 1_700_000_000_000_000,
        updated_at: 1_700_000_001_500_000,
        deleted_at: Some(1_700_000_002_000_001),
        deleted_with_column: true,
    };
    let row = card_to_row(&card).unwrap();
    assert_eq!(row.created_at, "2023-11-14T22:13:20+00:00");
    assert_eq!(row.updated_at, "2023-11-14T22:13:21.500+00:00");
    assert_eq!(row.deleted_at.as_deref(), Some("2023-11-14T22:13:22.000001+00:00"));
    assert_eq!(row.deleted_with_column, 1);
    let back = row_to_card(row).unwrap();
    assert_eq!(back.created_at, card.created_at);
    assert_eq!(back.updated_at, card.updated_at);
    assert_eq!(back.deleted_at, card.deleted_at);
    assert_eq!(back.content, card.content);
    assert!(back.deleted_with_column);

    let column = Column {
        id: "c".to_string(),
        deck_id: "d".to_string(),
        name: "Col".to_string(),
        position: 0,
        created_at: 0,
        updated_at: 0,
        deleted_at: None,
    };
    let row = column_to_row(&column).unwrap();
    assert_eq!(row.deleted_at, None);
    assert_eq!(row_to_column(row).unwrap().name, "Col");

    let deck = Deck {
        id: "d".to_string(),
        name: "Deck".to_string(),
        sort_order: SortOrder::CreatedAsc,
        created_at: 0,
        updated_at: i64::MAX,
    };
    assert!(matches!(deck_to_row(&deck), Err(JotDeckError::Database(_))));
    let deck = Deck { updated_at: 1, ..deck };
    let row = deck_to_row(&deck).unwrap();
    assert_eq!(row.sort_order, "created_asc");
    assert_eq!(row_to_deck(row).unwrap().sort_order, SortOrder::CreatedAsc);
}

#[test]
fn rows_are_assembled_from_their_parts() {
    let deck = deck_of_row(
        DeckRow {
            id: "d".to_string(),
            name: "Deck".to_string(),
            sort_order: "nonsense".to_string(),
            created_at: "ignored".to_string(),
            updated_at: "ignored".to_string(),
        },
        1,
        2,
    );
    assert_eq!(deck.sort_order, SortOrder::CreatedDesc);
    assert_eq!((deck.created_at, deck.updated_at), (1, 2));

    let column = column_of_row(
        ColumnRow {
            id: "c".to_string(),
            deck_id: "d".to_string(),
            name: "Col".to_string(),
            position: -4,
            created_at: String::new(),
            updated_at: String::new(),
            deleted_at: None,
        },
        3,
        4,
        Some(5),
    );
    assert_eq!(column.position, -4);
    assert_eq!(column.deleted_at, Some(5));
    assert_eq!(column.deck_id, "d");

    let card = card_of_row(
        CardRow {
            id: "k".to_string(),
            column_id: "c".to_string(),
            content: "text".to_string(),
            score: 9,
            position: 2,
            created_at: String::new(),
            updated_at: String::new(),
            deleted_at: Some("unused".to_string()),
            deleted_with_column: -1,
        },
        6,
        7,
        None,
    );
    assert_eq!(card.score, 9);
    assert_eq!(card.deleted_at, None);
    assert!(card.deleted_with_column);
    assert_eq!((card.created_at, card.updated_at), (6, 7));
}
