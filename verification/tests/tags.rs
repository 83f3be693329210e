use jot_deck_core::db::{create_in_memory, Store};
use jot_deck_core::error::JotDeckError;
use jot_deck_core::models::{NewCard, NewColumn, NewDeck, SortOrder, Tag};
use jot_deck_core::repository;
use jot_deck_core::repository::{card, deck};
use jot_deck_core::repository::tag::{
    associate_tag, clear_card_tags, disassociate_tag, extract_tags, get_cards_by_tag,
    get_or_create, get_or_create_with, get_tag_suggestions, get_tags_by_card, get_tags_by_deck,
    split_tags, sync_card_tags, sync_card_tags_with,
};

fn setup(content: &str) -> (Store, String, String, String) {
    let mut store = create_in_memory().unwrap();
    let d = deck::create(
        &mut store,
        NewDeck {
            name: "Test".to_string(),
            sort_order: SortOrder::default(),
        },
    )
    .unwrap();
    let col = repository::column::create(
        &mut store,
        NewColumn {
            deck_id: d.id.clone(),
            name: "Col".to_string(),
        },
    )
    .unwrap();
    let c = card::create(
        &mut store,
        NewCard {
            column_id: col.id.clone(),
            content: content.to_string(),
        },
    )
    .unwrap();
    (store, d.id, col.id, c.id)
}

fn names(tags: &[Tag]) -> Vec<String> {
    tags.iter().map(|t| t.name.clone()).collect()
}

#[test]
fn test_extract_tags() {
    let content = "This is a #test with #multiple #tags";
    let tags = extract_tags(content);
    assert_eq!(tags, vec!["test", "multiple", "tags"]);
}

#[test]
fn test_extract_japanese_tags() {
    let content = "これは #テスト と #アイデア と #重要_メモ です";
    let tags = extract_tags(content);
    assert_eq!(tags, vec!["テスト", "アイデア", "重要_メモ"]);
}

#[test]
fn test_sync_card_tags() {
    let (mut conn, _, _, card_id) = setup("#tag1 #tag2");

    let tags = sync_card_tags(&mut conn, &card_id, "#tag1 #tag2").unwrap();
    assert_eq!(tags.len(), 2);

    let tags = sync_card_tags(&mut conn, &card_id, "#tag2 #tag3").unwrap();
    assert_eq!(tags.len(), 2);

    let card_tags = get_tags_by_card(&conn, &card_id).unwrap();
    let tag_names: Vec<_> = card_tags.iter().map(|t| t.name.clone()).collect();
    assert!(tag_names.contains(&"tag2".to_string()));
    assert!(tag_names.contains(&"tag3".to_string()));
    assert!(!tag_names.contains(&"tag1".to_string()));
}

#[test]
fn test_get_tags_by_deck() {
    let (mut conn, deck_id, column_id, c1) = setup("#alpha #beta");
    let c2 = card::create(
        &mut conn,
        NewCard {
            column_id: column_id.clone(),
            content: "#beta #gamma".to_string(),
        },
    )
    .unwrap();

    sync_card_tags(&mut conn, &c1, "#alpha #beta").unwrap();
    sync_card_tags(&mut conn, &c2.id, &c2.content).unwrap();

    let tags = get_tags_by_deck(&conn, &deck_id).unwrap();
    assert_eq!(tags.len(), 3);
    let tag_names: Vec<_> = tags.iter().map(|t| t.name.clone()).collect();
    assert!(tag_names.contains(&"alpha".to_string()));
    assert!(tag_names.contains(&"beta".to_string()));
    assert!(tag_names.contains(&"gamma".to_string()));
}

#[test]
fn test_tag_suggestions() {
    let (mut conn, deck_id, _, card_id) = setup("#project #proposal #personal");

    sync_card_tags(&mut conn, &card_id, "#project #proposal #personal").unwrap();

    let suggestions = get_tag_suggestions(&conn, &deck_id, "pro").unwrap();
    assert_eq!(suggestions.len(), 2);
    let names: Vec<_> = suggestions.iter().map(|t| t.name.clone()).collect();
    assert!(names.contains(&"project".to_string()));
    assert!(names.contains(&"proposal".to_string()));
}

#[test]
fn extract_tags_edge_cases() {
    assert!(extract_tags("").is_empty());
    assert!(extract_tags("no tags here").is_empty());
    assert!(extract_tags("# alone").is_empty());
    assert!(extract_tags("trailing #").is_empty());
    assert_eq!(extract_tags("#a"), vec!["a"]);
    assert_eq!(extract_tags("##double"), vec!["double"]);
    assert_eq!(extract_tags("#a#b"), vec!["a", "b"]);
    assert_eq!(extract_tags("#dup and #dup"), vec!["dup", "dup"]);
    assert_eq!(extract_tags("#snake_case-rest"), vec!["snake_case"]);
    assert_eq!(extract_tags("#123 #x1!"), vec!["123", "x1"]);
    assert_eq!(extract_tags("#Case #case"), vec!["Case", "case"]);
    assert_eq!(extract_tags("x#glued"), vec!["glued"]);
    assert_eq!(extract_tags("#émigré #ひらがな。"), vec!["émigré", "ひらがな"]);
    assert!(extract_tags("#-dash #.dot").is_empty());
}

#[test]
fn sync_twice_changes_nothing() {
    let (mut store, _, _, card_id) = setup("#a #b");

    let first = sync_card_tags(&mut store, &card_id, "#a #b").unwrap();
    let tags_after_first = store.tags().len();
    let links_after_first = store.card_tags().len();
    let second = sync_card_tags(&mut store, &card_id, "#a #b").unwrap();

    assert_eq!(names(&first), vec!["a", "b"]);
    assert_eq!(names(&second), vec!["a", "b"]);
    assert_eq!(first[0].id, second[0].id);
    assert_eq!(first[1].id, second[1].id);
    assert_eq!(store.tags().len(), tags_after_first);
    assert_eq!(store.card_tags().len(), links_after_first);
    assert_eq!(tags_after_first, 2);
    assert_eq!(links_after_first, 2);
}

#[test]
fn sync_replaces_the_links_and_keeps_the_orphan_tag() {
    let (mut store, _, _, card_id) = setup("#a #b");
    sync_card_tags(&mut store, &card_id, "#a #b").unwrap();

    let synced = sync_card_tags(&mut store, &card_id, "#b #c").unwrap();

    assert_eq!(names(&synced), vec!["b", "c"]);
    assert_eq!(names(&get_tags_by_card(&store, &card_id).unwrap()), vec!["b", "c"]);
    let all: Vec<String> = store.tags().iter().map(|t| t.name.clone()).collect();
    assert_eq!(all, vec!["a", "b", "c"]);
    assert_eq!(store.card_tags().len(), 2);
}

#[test]
fn sync_lists_a_repeated_name_once() {
    let (mut store, _, _, card_id) = setup("");

    let synced = sync_card_tags(&mut store, &card_id, "#x #y #x").unwrap();

    assert_eq!(names(&synced), vec!["x", "y"]);
    assert_eq!(store.card_tags().len(), 2);
    let none = sync_card_tags(&mut store, &card_id, "plain").unwrap();
    assert!(none.is_empty());
    assert!(store.card_tags().is_empty());
    assert_eq!(store.tags().len(), 2);
}

#[test]
fn sync_with_a_taken_identifier_changes_nothing() {
    let (mut store, _, _, card_id) = setup("");
    get_or_create_with(&mut store, "old", "t1".to_string()).unwrap();
    associate_tag(&mut store, &card_id, "t1").unwrap();

    let candidates = vec![
        Tag {
            id: "t2".to_string(),
            name: "fresh".to_string(),
        },
        Tag {
            id: "t1".to_string(),
            name: "clash".to_string(),
        },
    ];
    let r = sync_card_tags_with(&mut store, &card_id, &candidates);

    assert!(matches!(r, Err(JotDeckError::Database(_))));
    assert_eq!(names(store.tags()), vec!["old"]);
    assert_eq!(store.card_tags().len(), 1);
    assert_eq!(names(&get_tags_by_card(&store, &card_id).unwrap()), vec!["old"]);
}

#[test]
fn sync_uses_the_tag_that_is_there() {
    let (mut store, _, _, card_id) = setup("");
    get_or_create_with(&mut store, "known", "t-known".to_string()).unwrap();

    let candidates = vec![
        Tag {
            id: "unused".to_string(),
            name: "known".to_string(),
        },
        Tag {
            id: "t-new".to_string(),
            name: "new".to_string(),
        },
    ];
    let synced = sync_card_tags_with(&mut store, &card_id, &candidates).unwrap();

    assert_eq!(synced[0].id, "t-known");
    assert_eq!(synced[1].id, "t-new");
    assert_eq!(store.tags().len(), 2);
    assert_eq!(store.card_tags().len(), 2);
}

#[test]
fn get_or_create_is_case_sensitive_and_reuses() {
    let mut store = create_in_memory().unwrap();

    let a = get_or_create(&mut store, "Idea").unwrap();
    let b = get_or_create(&mut store, "idea").unwrap();
    let again = get_or_create(&mut store, "Idea").unwrap();

    assert_ne!(a.id, b.id);
    assert_eq!(a.id, again.id);
    assert_eq!(a.id.len(), 26);
    assert_eq!(store.tags().len(), 2);
    assert!(matches!(
        get_or_create_with(&mut store, "third", a.id.clone()),
        Err(JotDeckError::Database(_))
    ));
}

#[test]
fn links_are_made_once_and_removed() {
    let mut store = create_in_memory().unwrap();

    associate_tag(&mut store, "c1", "t1").unwrap();
    associate_tag(&mut store, "c1", "t1").unwrap();
    associate_tag(&mut store, "c1", "t2").unwrap();
    associate_tag(&mut store, "c2", "t1").unwrap();
    assert_eq!(store.card_tags().len(), 3);

    disassociate_tag(&mut store, "c1", "t1").unwrap();
    assert_eq!(store.card_tags().len(), 2);
    disassociate_tag(&mut store, "c1", "t9").unwrap();
    assert_eq!(store.card_tags().len(), 2);

    clear_card_tags(&mut store, "c1").unwrap();
    assert_eq!(store.card_tags().len(), 1);
    assert_eq!(store.card_tags()[0].card_id, "c2");
}

#[test]
fn tags_of_a_card_come_in_the_order_of_their_names() {
    let (mut store, _, _, card_id) = setup("");

    sync_card_tags(&mut store, &card_id, "#pear #Zed #apple #ab #a").unwrap();

    assert_eq!(
        names(&get_tags_by_card(&store, &card_id).unwrap()),
        vec!["Zed", "a", "ab", "apple", "pear"]
    );
}

#[test]
fn deck_queries_leave_out_the_bin_and_other_decks() {
    let (mut store, deck_id, column_id, shown) = setup("#seen #both");
    let binned = card::create(
        &mut store,
        NewCard {
            column_id: column_id.clone(),
            content: "#hidden #both".to_string(),
        },
    )
    .unwrap();
    let other_deck = deck::create(
        &mut store,
        NewDeck {
            name: "Other".to_string(),
            sort_order: SortOrder::default(),
        },
    )
    .unwrap();
    let other_col = repository::column::create(
        &mut store,
        NewColumn {
            deck_id: other_deck.id.clone(),
            name: "Other col".to_string(),
        },
    )
    .unwrap();
    let elsewhere = card::create(
        &mut store,
        NewCard {
            column_id: other_col.id.clone(),
            content: "#far #both".to_string(),
        },
    )
    .unwrap();
    sync_card_tags(&mut store, &shown, "#seen #both").unwrap();
    sync_card_tags(&mut store, &binned.id, &binned.content).unwrap();
    sync_card_tags(&mut store, &elsewhere.id, &elsewhere.content).unwrap();
    card::soft_delete(&mut store, &binned.id).unwrap();

    assert_eq!(names(&get_tags_by_deck(&store, &deck_id).unwrap()), vec!["both", "seen"]);
    assert_eq!(
        names(&get_tags_by_deck(&store, &other_deck.id).unwrap()),
        vec!["both", "far"]
    );
    assert_eq!(get_cards_by_tag(&store, &deck_id, "both").unwrap(), vec![shown.clone()]);
    assert_eq!(
        get_cards_by_tag(&store, &other_deck.id, "both").unwrap(),
        vec![elsewhere.id.clone()]
    );
    assert!(get_cards_by_tag(&store, &deck_id, "hidden").unwrap().is_empty());
    assert!(get_cards_by_tag(&store, &deck_id, "Both").unwrap().is_empty());
    assert!(get_cards_by_tag(&store, &deck_id, "unknown").unwrap().is_empty());

    repository::column::soft_delete(&mut store, &column_id).unwrap();
    assert!(get_tags_by_deck(&store, &deck_id).unwrap().is_empty());
    assert!(get_cards_by_tag(&store, &deck_id, "both").unwrap().is_empty());
    assert!(get_tag_suggestions(&store, &deck_id, "").unwrap().is_empty());
}

#[test]
fn suggestions_are_capped_at_ten() {
    let (mut store, deck_id, _, card_id) = setup("");
    let content = "#t01 #t02 #t03 #t04 #t05 #t06 #t07 #t08 #t09 #t10 #t11 #t12 #u1";
    sync_card_tags(&mut store, &card_id, content).unwrap();

    let found = get_tag_suggestions(&store, &deck_id, "t").unwrap();

    assert_eq!(
        names(&found),
        vec!["t01", "t02", "t03", "t04", "t05", "t06", "t07", "t08", "t09", "t10"]
    );
    assert_eq!(names(&get_tag_suggestions(&store, &deck_id, "t1").unwrap()), vec!["t10", "t11", "t12"]);
    assert_eq!(get_tag_suggestions(&store, &deck_id, "").unwrap().len(), 10);
    assert!(get_tag_suggestions(&store, &deck_id, "T").unwrap().is_empty());
    assert!(get_tag_suggestions(&store, &deck_id, "t011").unwrap().is_empty());
}

fn marks(pattern: &str) -> Vec<bool> {
    pattern.chars().map(|c| c == 'w').collect()
}

#[test]
fn split_tags_follows_the_marks() {
    assert_eq!(split_tags("a #bc d", &marks("...ww..")), vec!["bc"]);
    assert_eq!(split_tags("#a#b", &marks(".w.w")), vec!["a", "b"]);
    assert_eq!(split_tags("##x", &marks("..w")), vec!["x"]);
    assert_eq!(split_tags("#ab", &marks(".w.")), vec!["a"]);
    assert_eq!(split_tags("#ab", &marks(".ww")), vec!["ab"]);
    assert!(split_tags("#ab", &marks("..w")).is_empty());
    assert!(split_tags("ab", &marks("ww")).is_empty());
    assert!(split_tags("#", &marks(".")).is_empty());
    assert!(split_tags("", &marks("")).is_empty());
    assert_eq!(split_tags("#ab #c", &marks("www.ww")), vec!["ab", "c"]);
    assert_eq!(split_tags("#\u{3042}x", &marks(".ww")), vec!["\u{3042}x"]);
}

#[test]
fn split_tags_ignores_marks_that_miss_the_text() {
    assert_eq!(split_tags("#ab", &marks(".w")), vec!["a"]);
    assert!(split_tags("#ab", &marks("")).is_empty());
    assert_eq!(split_tags("#ab", &marks(".wwwww")), vec!["ab"]);
}

#[test]
fn extract_tags_of_a_long_text() {
    let mut content = String::new();
    for i in 0..300 {
        content.push_str("word and more words ");
        if i % 100 == 0 {
            content.push_str(&format!("#tag{} ", i));
        }
    }
    assert_eq!(extract_tags(&content), vec!["tag0", "tag100", "tag200"]);
}
