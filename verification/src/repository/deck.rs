//! Decks: the top of the hierarchy. A deck has no bin: deleting it removes
//! it, its columns and their cards for good.

use vstd::prelude::*;
use vstd::string::StringExecFns;
use crate::clock::utc_now_micros;
use crate::db::{Store, StoreView};
use crate::error::{database, duplicate_id, not_found, outcome, ErrorView, JotDeckError};
use crate::ident::new_id;
use crate::listing::{
    kept, key_view, key_views, lemma_masked_is_filter, lemma_masked_keeps_keys, lemma_masked_rows,
    list_by, listed_by_number, Number,
};
use crate::models::{views, Card, CardView, Column, ColumnView, Deck, DeckView, NewDeck, SortOrder};
use crate::repository::card::deck_of;
use crate::sibling::{
    find_row, has_key, lemma_push_keeps_keys, lemma_update_keeps_keys, lookup, unique_keys, Keyed,
};

verus! {

/// A deck as it is made.
pub open spec fn fresh_deck(
    name: Seq<char>,
    sort_order: SortOrder,
    id: Seq<char>,
    now: int,
) -> DeckView {
    DeckView { id: id, name: name, sort_order: sort_order, created_at: now, updated_at: now }
}

pub open spec fn deck_not_found(id: Seq<char>) -> ErrorView {
    ErrorView::NotFound("Deck not found: "@ + id)
}

/// What `create_with` leaves and returns.
pub open spec fn create_outcome(
    s: StoreView,
    name: Seq<char>,
    sort_order: SortOrder,
    id: Seq<char>,
    now: int,
) -> (StoreView, Result<DeckView, ErrorView>) {
    if has_key::<Deck>(s.decks, id) {
        (s, Err(duplicate_id()))
    } else {
        let deck = fresh_deck(name, sort_order, id, now);
        (StoreView { decks: s.decks.push(deck), ..s }, Ok(deck))
    }
}

/// What `get_by_id` returns.
pub open spec fn get_by_id_outcome(s: StoreView, id: Seq<char>) -> Result<DeckView, ErrorView> {
    match lookup::<Deck>(s.decks, id) {
        Some(k) => Ok(s.decks[k]),
        None => Err(deck_not_found(id)),
    }
}

/// What `update_with` leaves and returns: the deck takes the name and the
/// sort order that are given, and keeps the one that is not.
pub open spec fn update_outcome(
    s: StoreView,
    id: Seq<char>,
    name: Option<Seq<char>>,
    sort_order: Option<SortOrder>,
    now: int,
) -> (StoreView, Result<DeckView, ErrorView>) {
    match lookup::<Deck>(s.decks, id) {
        None => (s, Err(deck_not_found(id))),
        Some(k) => {
            let deck = DeckView {
                name: match name {
                    Some(n) => n,
                    None => s.decks[k].name,
                },
                sort_order: match sort_order {
                    Some(o) => o,
                    None => s.decks[k].sort_order,
                },
                updated_at: now,
                ..s.decks[k]
            };
            (StoreView { decks: s.decks.update(k, deck), ..s }, Ok(deck))
        },
    }
}

/// Whether a card stays when the deck is deleted: its column is none of
/// the deck's.
pub open spec fn outside_deck(columns: Seq<ColumnView>, deck_id: Seq<char>) -> spec_fn(
    CardView,
) -> bool {
    |c: CardView| deck_of(columns, c.column_id) != Some(deck_id)
}

/// Whether a column stays when the deck is deleted.
pub open spec fn of_other_deck(deck_id: Seq<char>) -> spec_fn(ColumnView) -> bool {
    |c: ColumnView| c.deck_id != deck_id
}

/// What `delete` leaves and returns: the cards of the deck's columns are
/// gone, then the deck's columns, then the deck. Tags and links stay.
pub open spec fn delete_outcome(s: StoreView, id: Seq<char>) -> (StoreView, Result<(), ErrorView>) {
    match lookup::<Deck>(s.decks, id) {
        None => (s, Err(deck_not_found(id))),
        Some(k) => (
            StoreView {
                decks: s.decks.remove(k),
                columns: s.columns.filter(of_other_deck(id)),
                cards: s.cards.filter(outside_deck(s.columns, id)),
                ..s
            },
            Ok(()),
        ),
    }
}

/// Makes a deck with the given identifier, at the instant `now`.
pub fn create_with(store: &mut Store, new_deck: NewDeck, id: String, now: i64) -> (r: Result<
    Deck,
    JotDeckError,
>)
    requires
        old(store).wf(),
    ensures
        final(store).wf(),
        (final(store)@, outcome(r)) == create_outcome(
            old(store)@,
            new_deck.name@,
            new_deck.sort_order,
            id@,
            now as int,
        ),
{
    if find_row(&store.decks, id.as_str()).is_some() {
        return Err(database("UNIQUE constraint failed: id"));
    }
    let deck = Deck {
        id: id,
        name: new_deck.name,
        sort_order: new_deck.sort_order,
        created_at: now,
        updated_at: now,
    };
    let made = deck.clone();
    store.decks.push(deck);
    proof {
        assert(store@.decks =~= old(store)@.decks.push(made@));
        lemma_push_keeps_keys::<Deck>(old(store)@.decks, made@);
    }
    Ok(made)
}

/// Makes a deck.
pub fn create(store: &mut Store, new_deck: NewDeck) -> (r: Result<Deck, JotDeckError>)
    requires
        old(store).wf(),
    ensures
        final(store).wf(),
        exists|id: Seq<char>, now: int|
            (final(store)@, outcome(r)) == create_outcome(
                old(store)@,
                new_deck.name@,
                new_deck.sort_order,
                id,
                now,
            ),
{
    let id = new_id();
    let now = utc_now_micros();
    let ghost given = id@;
    let r = create_with(store, new_deck, id, now);
    assert((store@, outcome(r)) == create_outcome(
        old(store)@,
        new_deck.name@,
        new_deck.sort_order,
        given,
        now as int,
    ));
    r
}

/// The deck that carries `id`.
pub fn get_by_id(store: &Store, id: &str) -> (r: Result<Deck, JotDeckError>)
    ensures
        outcome(r) == get_by_id_outcome(store@, id@),
{
    match find_row(&store.decks, id) {
        Some(k) => {
            assert(store@.decks[k as int] == store.decks[k as int]@);
            Ok(store.decks[k].clone())
        },
        None => Err(not_found("Deck not found: ", id)),
    }
}

/// The instant at which a deck was made.
pub open spec fn made_at() -> spec_fn(DeckView) -> Option<int> {
    |d: DeckView| Some(d.created_at)
}

/// All decks, the one that was made last first.
pub fn get_all(store: &Store) -> (r: Result<Vec<Deck>, JotDeckError>)
    ensures
        r is Ok,
        views(r.unwrap()@) == listed_by_number(store@.decks, made_at(), true),
{
    let mut keys: Vec<Option<Number>> = Vec::new();
    let mut i: usize = 0;
    while i < store.decks.len()
        invariant
            i <= store.decks.len(),
            keys.len() == i,
            forall|j: int|
                0 <= j < i ==> key_view(#[trigger] keys[j]) == made_at()(store@.decks[j]),
        decreases store.decks.len() - i,
    {
        proof {
            assert(store@.decks[i as int] == store.decks[i as int]@);
        }
        keys.push(Some(Number(store.decks[i].created_at)));
        i += 1;
    }
    assert(key_views(keys@) =~= store@.decks.map_values(made_at()));
    Ok(list_by(&store.decks, &keys, true))
}

/// The name that `update` is given, as a sequence of characters.
pub open spec fn given_name(name: Option<&str>) -> Option<Seq<char>> {
    match name {
        Some(n) => Some(n@),
        None => None,
    }
}

/// Changes the name or the sort order of a deck, at the instant `now`.
pub fn update_with(
    store: &mut Store,
    id: &str,
    name: Option<&str>,
    sort_order: Option<SortOrder>,
    now: i64,
) -> (r: Result<Deck, JotDeckError>)
    requires
        old(store).wf(),
    ensures
        final(store).wf(),
        (final(store)@, outcome(r)) == update_outcome(
            old(store)@,
            id@,
            given_name(name),
            sort_order,
            now as int,
        ),
{
    let k = match find_row(&store.decks, id) {
        Some(k) => k,
        None => {
            return Err(not_found("Deck not found: ", id));
        },
    };
    assert(store@.decks[k as int] == store.decks[k as int]@);
    match name {
        Some(n) => {
            store.decks[k].name = String::from_str(n);
        },
        None => {},
    }
    match sort_order {
        Some(o) => {
            store.decks[k].sort_order = o;
        },
        None => {},
    }
    store.decks[k].updated_at = now;
    proof {
        let deck = DeckView {
            name: match name {
                Some(n) => n@,
                None => old(store)@.decks[k as int].name,
            },
            sort_order: match sort_order {
                Some(o) => o,
                None => old(store)@.decks[k as int].sort_order,
            },
            updated_at: now as int,
            ..old(store)@.decks[k as int]
        };
        assert(store@.decks =~= old(store)@.decks.update(k as int, deck));
        lemma_update_keeps_keys::<Deck>(old(store)@.decks, k as int, deck);
    }
    Ok(store.decks[k].clone())
}

/// Changes the name or the sort order of a deck.
pub fn update(store: &mut Store, id: &str, name: Option<&str>, sort_order: Option<SortOrder>) -> (r:
    Result<Deck, JotDeckError>)
    requires
        old(store).wf(),
    ensures
        final(store).wf(),
        exists|now: int|
            (final(store)@, outcome(r)) == update_outcome(
                old(store)@,
                id@,
                given_name(name),
                sort_order,
                now,
            ),
{
    let now = utc_now_micros();
    let r = update_with(store, id, name, sort_order, now);
    assert((store@, outcome(r)) == update_outcome(
        old(store)@,
        id@,
        given_name(name),
        sort_order,
        now as int,
    ));
    r
}

/// Removing one row keeps the identifiers different.
proof fn lemma_remove_keeps_keys<T: Keyed>(rows: Seq<T::V>, k: int)
    requires
        0 <= k < rows.len(),
        unique_keys::<T>(rows),
    ensures
        unique_keys::<T>(rows.remove(k)),
{
    let after = rows.remove(k);
    assert forall|i: int, j: int| 0 <= i < j < after.len() implies T::key_of(#[trigger] after[i])
        != T::key_of(#[trigger] after[j]) by {
        let a = if i < k {
            i
        } else {
            i + 1
        };
        let b = if j < k {
            j
        } else {
            j + 1
        };
        assert(T::key_of(rows[a]) != T::key_of(rows[b]));
    }
}

/// Deletes a deck for good, with its columns and their cards.
pub fn delete(store: &mut Store, id: &str) -> (r: Result<(), JotDeckError>)
    requires
        old(store).wf(),
    ensures
        final(store).wf(),
        (final(store)@, outcome(r)) == delete_outcome(old(store)@, id@),
{
    let k = match find_row(&store.decks, id) {
        Some(k) => k,
        None => {
            return Err(not_found("Deck not found: ", id));
        },
    };
    let wanted = String::from_str(id);
    let mut keep_cards: Vec<bool> = Vec::new();
    let mut i: usize = 0;
    while i < store.cards.len()
        invariant
            i <= store.cards.len(),
            wanted@ == id@,
            keep_cards.len() == i,
            forall|j: int|
                0 <= j < i ==> #[trigger] keep_cards[j] == outside_deck(store@.columns, id@)(
                    store@.cards[j],
                ),
        decreases store.cards.len() - i,
    {
        proof {
            assert(store@.cards[i as int] == store.cards[i as int]@);
        }
        let inside = match find_row(&store.columns, store.cards[i].column_id.as_str()) {
            Some(j) => {
                assert(store@.columns[j as int] == store.columns[j as int]@);
                store.columns[j].deck_id == wanted
            },
            None => false,
        };
        keep_cards.push(!inside);
        i += 1;
    }
    let mut keep_columns: Vec<bool> = Vec::new();
    let mut i: usize = 0;
    while i < store.columns.len()
        invariant
            i <= store.columns.len(),
            wanted@ == id@,
            keep_columns.len() == i,
            forall|j: int|
                0 <= j < i ==> #[trigger] keep_columns[j] == of_other_deck(id@)(store@.columns[j]),
        decreases store.columns.len() - i,
    {
        proof {
            assert(store@.columns[i as int] == store.columns[i as int]@);
        }
        keep_columns.push(!(store.columns[i].deck_id == wanted));
        i += 1;
    }
    let cards = kept(&store.cards, &keep_cards);
    let columns = kept(&store.columns, &keep_columns);
    proof {
        lemma_masked_is_filter(store@.cards, keep_cards@, outside_deck(store@.columns, id@));
        lemma_masked_is_filter(store@.columns, keep_columns@, of_other_deck(id@));
        lemma_masked_keeps_keys::<Card>(store@.cards, keep_cards@);
        lemma_masked_keeps_keys::<Column>(store@.columns, keep_columns@);
        lemma_remove_keeps_keys::<Deck>(store@.decks, k as int);
    }
    store.cards = cards;
    store.columns = columns;
    store.decks.remove(k);
    proof {
        assert(store@.decks =~= old(store)@.decks.remove(k as int));
    }
    Ok(())
}


/// A row that a filter drops is not found afterwards, where no identifier
/// occurs twice.
pub proof fn lemma_dropped_row_is_gone<T: Keyed>(
    rows: Seq<T::V>,
    pred: spec_fn(T::V) -> bool,
    i: int,
)
    requires
        unique_keys::<T>(rows),
        0 <= i < rows.len(),
        !pred(rows[i]),
    ensures
        lookup::<T>(rows.filter(pred), T::key_of(rows[i])) is None,
{
    let keep = rows.map_values(pred);
    lemma_masked_is_filter(rows, keep, pred);
    let left = rows.filter(pred);
    if has_key::<T>(left, T::key_of(rows[i])) {
        let j = choose|j: int|
            0 <= j < left.len() && T::key_of(#[trigger] left[j]) == T::key_of(rows[i]);
        let a = lemma_masked_rows(rows, keep, j);
        if a < i {
            assert(T::key_of(rows[a]) != T::key_of(rows[i]));
        }
        if i < a {
            assert(T::key_of(rows[i]) != T::key_of(rows[a]));
        }
    }
}

/// After a deck is deleted, it is not found, nor is any of its columns, nor
/// any card of those columns.
pub proof fn lemma_deleted_deck_is_gone(s: StoreView, id: Seq<char>)
    requires
        s.wf(),
        lookup::<Deck>(s.decks, id) is Some,
    ensures
        ({
            let after = delete_outcome(s, id).0;
            &&& get_by_id_outcome(after, id) == Err::<DeckView, ErrorView>(deck_not_found(id))
            &&& forall|i: int|
                0 <= i < s.columns.len() && (#[trigger] s.columns[i]).deck_id == id
                    ==> crate::repository::column::get_by_id_outcome(after, s.columns[i].id)
                    == Err::<ColumnView, ErrorView>(
                    crate::repository::column::column_not_found(s.columns[i].id),
                )
            &&& forall|i: int|
                0 <= i < s.cards.len() && deck_of(s.columns, (#[trigger] s.cards[i]).column_id)
                    == Some(id) ==> crate::repository::card::get_by_id_outcome(
                    after,
                    s.cards[i].id,
                ) == Err::<CardView, ErrorView>(
                    crate::repository::card::card_not_found(s.cards[i].id),
                )
        }),
{
    let after = delete_outcome(s, id).0;
    crate::sibling::lemma_lookup_some::<Deck>(s.decks, id);
    let k = lookup::<Deck>(s.decks, id).unwrap();
    if has_key::<Deck>(after.decks, id) {
        let j = choose|j: int|
            0 <= j < after.decks.len() && Deck::key_of(#[trigger] after.decks[j]) == id;
        let a = if j < k {
            j
        } else {
            j + 1
        };
        assert(after.decks[j] == s.decks[a]);
        if a < k {
            assert(Deck::key_of(s.decks[a]) != Deck::key_of(s.decks[k]));
        } else {
            assert(Deck::key_of(s.decks[k]) != Deck::key_of(s.decks[a]));
        }
    }
    assert forall|i: int|
        0 <= i < s.columns.len() && (#[trigger] s.columns[i]).deck_id == id implies lookup::<
        Column,
    >(after.columns, s.columns[i].id) is None by {
        lemma_dropped_row_is_gone::<Column>(s.columns, of_other_deck(id), i);
    }
    assert forall|i: int|
        0 <= i < s.cards.len() && deck_of(s.columns, (#[trigger] s.cards[i]).column_id) == Some(
            id,
        ) implies lookup::<Card>(after.cards, s.cards[i].id) is None by {
        lemma_dropped_row_is_gone::<Card>(s.cards, outside_deck(s.columns, id), i);
    }
}

} // verus!
