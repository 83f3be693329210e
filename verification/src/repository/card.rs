//! Cards: the rows of a column.
//!
//! Each operation that reads the clock or draws an identifier has a twin
//! whose name ends in `_with` and which takes the reading and the identifier
//! as arguments. The twin's contract says exactly what the store holds
//! afterwards and what is returned.

use vstd::prelude::*;
use vstd::string::StringExecFns;
use crate::clock::utc_now_micros;
use crate::db::{Store, StoreView};
use crate::error::{
    database, duplicate_id, invalid_operation, not_found, outcome, position_out_of_range,
    ErrorView, JotDeckError,
};
use crate::ident::new_id;
use crate::listing::{key_view, key_views, list_by, listed_by_number, Number};
use crate::models::{views, Card, CardView, Column, ColumnView, NewCard};
use crate::position::{highest, next_position};
use crate::sibling::{
    find_row, has_key, highest_position, highest_position_after_shift, insert_row,
    lemma_push_keeps_keys, lemma_rows_moved, lemma_rows_reinserted, lemma_rows_removed,
    lemma_rows_shifted, lemma_update_keeps_keys, lookup, move_row, reinsert_row, remove_row,
    rows_inserted, rows_moved, rows_reinserted, rows_removed, rows_shifted, shift_rows, slots,
    Keyed, Sibling,
};

verus! {

/// The store with another table of cards.
pub open spec fn with_cards(s: StoreView, cards: Seq<CardView>) -> StoreView {
    StoreView { cards: cards, ..s }
}

/// A card as it is made: active, with no score.
pub open spec fn fresh_card(
    column_id: Seq<char>,
    content: Seq<char>,
    position: int,
    id: Seq<char>,
    now: int,
) -> CardView {
    CardView {
        id: id,
        column_id: column_id,
        content: content,
        score: 0,
        position: position,
        created_at: now,
        updated_at: now,
        deleted_at: None,
        deleted_with_column: false,
    }
}

pub open spec fn card_not_found(id: Seq<char>) -> ErrorView {
    ErrorView::NotFound("Card not found: "@ + id)
}

pub open spec fn cannot_update_deleted_card() -> ErrorView {
    ErrorView::InvalidOperation("Cannot update deleted card"@)
}

pub open spec fn cannot_move_deleted_card() -> ErrorView {
    ErrorView::InvalidOperation("Cannot move deleted card"@)
}

pub open spec fn card_already_deleted() -> ErrorView {
    ErrorView::InvalidOperation("Card is already deleted"@)
}

pub open spec fn card_not_deleted() -> ErrorView {
    ErrorView::InvalidOperation("Card is not deleted"@)
}

pub open spec fn card_deleted_with_column() -> ErrorView {
    ErrorView::InvalidOperation(
        "Cannot restore card that was deleted with column. Restore the column instead."@,
    )
}

pub open spec fn score_out_of_range() -> ErrorView {
    ErrorView::Database("score out of range"@)
}

/// What `create_with` leaves and returns: the card is appended to its column,
/// one past the highest position of the column's active cards.
pub open spec fn create_outcome(
    s: StoreView,
    column_id: Seq<char>,
    content: Seq<char>,
    id: Seq<char>,
    now: int,
) -> (StoreView, Result<CardView, ErrorView>) {
    let position = next_position(slots::<Card>(s.cards), column_id);
    if position > i32::MAX {
        (s, Err(position_out_of_range()))
    } else if has_key::<Card>(s.cards, id) {
        (s, Err(duplicate_id()))
    } else {
        let card = fresh_card(column_id, content, position, id, now);
        (with_cards(s, s.cards.push(card)), Ok(card))
    }
}

/// What `create_at_position_with` leaves and returns: the column's active
/// cards at or after `position` move up by one, then the card takes
/// `position`.
pub open spec fn create_at_position_outcome(
    s: StoreView,
    column_id: Seq<char>,
    content: Seq<char>,
    position: int,
    id: Seq<char>,
    now: int,
) -> (StoreView, Result<CardView, ErrorView>) {
    if highest(slots::<Card>(s.cards), column_id) == Some(i32::MAX as int) {
        (s, Err(position_out_of_range()))
    } else if has_key::<Card>(s.cards, id) {
        (s, Err(duplicate_id()))
    } else {
        let card = fresh_card(column_id, content, position, id, now);
        (with_cards(s, rows_inserted::<Card>(s.cards, card, now)), Ok(card))
    }
}

/// What `get_by_id` returns.
pub open spec fn get_by_id_outcome(s: StoreView, id: Seq<char>) -> Result<CardView, ErrorView> {
    match lookup::<Card>(s.cards, id) {
        Some(k) => Ok(s.cards[k]),
        None => Err(card_not_found(id)),
    }
}

/// What `update_content_with` leaves and returns.
pub open spec fn update_content_outcome(
    s: StoreView,
    id: Seq<char>,
    content: Seq<char>,
    now: int,
) -> (StoreView, Result<CardView, ErrorView>) {
    match lookup::<Card>(s.cards, id) {
        None => (s, Err(card_not_found(id))),
        Some(k) => if s.cards[k].deleted_at is Some {
            (s, Err(cannot_update_deleted_card()))
        } else {
            let card = CardView { content: content, updated_at: now, ..s.cards[k] };
            (with_cards(s, s.cards.update(k, card)), Ok(card))
        },
    }
}

/// What `update_score_with` leaves and returns: the score moves by `delta`.
pub open spec fn update_score_outcome(s: StoreView, id: Seq<char>, delta: int, now: int) -> (
    StoreView,
    Result<CardView, ErrorView>,
) {
    match lookup::<Card>(s.cards, id) {
        None => (s, Err(card_not_found(id))),
        Some(k) => if s.cards[k].deleted_at is Some {
            (s, Err(cannot_update_deleted_card()))
        } else if !(i32::MIN <= s.cards[k].score + delta <= i32::MAX) {
            (s, Err(score_out_of_range()))
        } else {
            let card = CardView { score: s.cards[k].score + delta, updated_at: now, ..s.cards[k] };
            (with_cards(s, s.cards.update(k, card)), Ok(card))
        },
    }
}

/// What `move_to_column_with` leaves and returns: the active cards after the
/// card in its column move down by one, then the card is appended to the
/// new column.
pub open spec fn move_to_column_outcome(
    s: StoreView,
    id: Seq<char>,
    new_column_id: Seq<char>,
    now: int,
) -> (StoreView, Result<CardView, ErrorView>) {
    match lookup::<Card>(s.cards, id) {
        None => (s, Err(card_not_found(id))),
        Some(k) => if s.cards[k].deleted_at is Some {
            (s, Err(cannot_move_deleted_card()))
        } else {
            let shifted = rows_shifted::<Card>(
                s.cards,
                s.cards[k].column_id,
                s.cards[k].position + 1,
                None,
                -1,
                now,
            );
            let position = next_position(slots::<Card>(shifted), new_column_id);
            if position > i32::MAX {
                (s, Err(position_out_of_range()))
            } else {
                let card = CardView {
                    column_id: new_column_id,
                    position: position,
                    updated_at: now,
                    ..s.cards[k]
                };
                (with_cards(s, shifted.update(k, card)), Ok(card))
            }
        },
    }
}

/// What `move_to_position_with` leaves and returns.
pub open spec fn move_to_position_outcome(
    s: StoreView,
    id: Seq<char>,
    new_position: int,
    now: int,
) -> (StoreView, Result<CardView, ErrorView>) {
    match lookup::<Card>(s.cards, id) {
        None => (s, Err(card_not_found(id))),
        Some(k) => if s.cards[k].deleted_at is Some {
            (s, Err(cannot_move_deleted_card()))
        } else {
            let cards = rows_moved::<Card>(s.cards, k, new_position, now);
            (with_cards(s, cards), Ok(cards[k]))
        },
    }
}

/// What `soft_delete_with` leaves and returns.
pub open spec fn soft_delete_outcome(s: StoreView, id: Seq<char>, now: int) -> (
    StoreView,
    Result<(), ErrorView>,
) {
    match lookup::<Card>(s.cards, id) {
        None => (s, Err(card_not_found(id))),
        Some(k) => if s.cards[k].deleted_at is Some {
            (s, Err(card_already_deleted()))
        } else {
            (with_cards(s, rows_removed::<Card>(s.cards, k, now)), Ok(()))
        },
    }
}

/// What `restore_with` leaves and returns: a card that went to the bin by
/// itself comes back to the position it kept; one that went with its column
/// comes back only with its column.
pub open spec fn restore_outcome(s: StoreView, id: Seq<char>, now: int) -> (
    StoreView,
    Result<CardView, ErrorView>,
) {
    match lookup::<Card>(s.cards, id) {
        None => (s, Err(card_not_found(id))),
        Some(k) => if s.cards[k].deleted_at is None {
            (s, Err(card_not_deleted()))
        } else if s.cards[k].deleted_with_column {
            (s, Err(card_deleted_with_column()))
        } else if highest(slots::<Card>(s.cards), s.cards[k].column_id) == Some(i32::MAX as int) {
            (s, Err(position_out_of_range()))
        } else {
            let cards = rows_reinserted::<Card>(s.cards, k, now);
            (with_cards(s, cards), Ok(cards[k]))
        },
    }
}

/// The position that a card appended to the column takes: one past the
/// highest position of the column's active cards, or zero where it has none. A
/// position beyond the largest that the table holds is a storage failure.
pub fn get_next_position(store: &Store, column_id: &str) -> (r: Result<i32, JotDeckError>)
    ensures
        match r {
            Ok(p) => p as int == next_position(slots::<Card>(store@.cards), column_id@),
            Err(e) => next_position(slots::<Card>(store@.cards), column_id@) > i32::MAX && e@
                == position_out_of_range(),
        },
{
    match highest_position(&store.cards, column_id) {
        Some(top) => {
            if top == i32::MAX {
                return Err(database("position out of range"));
            }
            Ok(top + 1)
        },
        None => Ok(0),
    }
}

/// Makes a card with the given identifier at the end of its column, at the
/// instant `now`.
pub fn create_with(store: &mut Store, new_card: NewCard, id: String, now: i64) -> (r: Result<
    Card,
    JotDeckError,
>)
    requires
        old(store).wf(),
    ensures
        final(store).wf(),
        (final(store)@, outcome(r)) == create_outcome(
            old(store)@,
            new_card.column_id@,
            new_card.content@,
            id@,
            now as int,
        ),
{
    let position: i32 = match get_next_position(store, new_card.column_id.as_str()) {
        Ok(position) => position,
        Err(e) => {
            return Err(e);
        },
    };
    if find_row(&store.cards, id.as_str()).is_some() {
        return Err(database("UNIQUE constraint failed: id"));
    }
    let card = Card {
        id: id,
        column_id: new_card.column_id,
        content: new_card.content,
        score: 0,
        position: position,
        created_at: now,
        updated_at: now,
        deleted_at: None,
        deleted_with_column: false,
    };
    let made = card.clone();
    store.cards.push(card);
    proof {
        assert(store@.cards =~= old(store)@.cards.push(made@));
        lemma_push_keeps_keys::<Card>(old(store)@.cards, made@);
    }
    Ok(made)
}

/// Makes a card at the end of its column.
pub fn create(store: &mut Store, new_card: NewCard) -> (r: Result<Card, JotDeckError>)
    requires
        old(store).wf(),
    ensures
        final(store).wf(),
        exists|id: Seq<char>, now: int|
            (final(store)@, outcome(r)) == create_outcome(
                old(store)@,
                new_card.column_id@,
                new_card.content@,
                id,
                now,
            ),
{
    let id = new_id();
    let now = utc_now_micros();
    let ghost given = id@;
    let r = create_with(store, new_card, id, now);
    assert((store@, outcome(r)) == create_outcome(
        old(store)@,
        new_card.column_id@,
        new_card.content@,
        given,
        now as int,
    ));
    r
}

/// Makes a card with the given identifier at `position` in its column, at
/// the instant `now`.
pub fn create_at_position_with(
    store: &mut Store,
    new_card: NewCard,
    position: i32,
    id: String,
    now: i64,
) -> (r: Result<Card, JotDeckError>)
    requires
        old(store).wf(),
    ensures
        final(store).wf(),
        (final(store)@, outcome(r)) == create_at_position_outcome(
            old(store)@,
            new_card.column_id@,
            new_card.content@,
            position as int,
            id@,
            now as int,
        ),
{
    let top = highest_position(&store.cards, new_card.column_id.as_str());
    if top == Some(i32::MAX) {
        return Err(database("position out of range"));
    }
    if find_row(&store.cards, id.as_str()).is_some() {
        return Err(database("UNIQUE constraint failed: id"));
    }
    let card = Card {
        id: id,
        column_id: new_card.column_id,
        content: new_card.content,
        score: 0,
        position: position,
        created_at: now,
        updated_at: now,
        deleted_at: None,
        deleted_with_column: false,
    };
    let made = card.clone();
    proof {
        let all = slots::<Card>(old(store)@.cards);
        crate::position::lemma_highest(all, made@.column_id);
        assert forall|i: int|
            0 <= i < store.cards.len() && crate::position::reached(
                Card::slot_of(#[trigger] store.cards[i]@),
                made@.column_id,
                position as int,
                None,
            ) implies Card::slot_of(store.cards[i]@).position < i32::MAX by {
            assert(all[i] == Card::slot_of(store.cards[i]@));
            assert(crate::position::member(all[i], made@.column_id));
        }
    }
    insert_row(&mut store.cards, card, now);
    proof {
        let shifted = rows_shifted::<Card>(
            old(store)@.cards,
            made@.column_id,
            position as int,
            None,
            1,
            now as int,
        );
        lemma_rows_shifted::<Card>(
            old(store)@.cards,
            made@.column_id,
            position as int,
            None,
            1,
            now as int,
        );
        if has_key::<Card>(shifted, made@.id) {
            let j = choose|j: int|
                0 <= j < shifted.len() && Card::key_of(#[trigger] shifted[j]) == made@.id;
            assert(Card::key_of(old(store)@.cards[j]) == made@.id);
        }
        lemma_push_keeps_keys::<Card>(shifted, made@);
    }
    Ok(made)
}

/// Makes a card at `position` in its column.
pub fn create_at_position(store: &mut Store, new_card: NewCard, position: i32) -> (r: Result<
    Card,
    JotDeckError,
>)
    requires
        old(store).wf(),
    ensures
        final(store).wf(),
        exists|id: Seq<char>, now: int|
            (final(store)@, outcome(r)) == create_at_position_outcome(
                old(store)@,
                new_card.column_id@,
                new_card.content@,
                position as int,
                id,
                now,
            ),
{
    let id = new_id();
    let now = utc_now_micros();
    let ghost given = id@;
    let r = create_at_position_with(store, new_card, position, id, now);
    assert((store@, outcome(r)) == create_at_position_outcome(
        old(store)@,
        new_card.column_id@,
        new_card.content@,
        position as int,
        given,
        now as int,
    ));
    r
}

/// The card that carries `id`.
pub fn get_by_id(store: &Store, id: &str) -> (r: Result<Card, JotDeckError>)
    ensures
        outcome(r) == get_by_id_outcome(store@, id@),
{
    match find_row(&store.cards, id) {
        Some(k) => {
            assert(store@.cards[k as int] == store.cards[k as int]@);
            Ok(store.cards[k].clone())
        },
        None => Err(not_found("Card not found: ", id)),
    }
}


/// Replaces the content of an active card, at the instant `now`.
pub fn update_content_with(store: &mut Store, id: &str, content: &str, now: i64) -> (r: Result<
    Card,
    JotDeckError,
>)
    requires
        old(store).wf(),
    ensures
        final(store).wf(),
        (final(store)@, outcome(r)) == update_content_outcome(
            old(store)@,
            id@,
            content@,
            now as int,
        ),
{
    let k = match find_row(&store.cards, id) {
        Some(k) => k,
        None => {
            return Err(not_found("Card not found: ", id));
        },
    };
    assert(store@.cards[k as int] == store.cards[k as int]@);
    if store.cards[k].deleted_at.is_some() {
        return Err(invalid_operation("Cannot update deleted card"));
    }
    store.cards[k].content = String::from_str(content);
    store.cards[k].updated_at = now;
    proof {
        let card = CardView {
            content: content@,
            updated_at: now as int,
            ..old(store)@.cards[k as int]
        };
        assert(store@.cards =~= old(store)@.cards.update(k as int, card));
        lemma_update_keeps_keys::<Card>(old(store)@.cards, k as int, card);
    }
    Ok(store.cards[k].clone())
}

/// Replaces the content of an active card.
pub fn update_content(store: &mut Store, id: &str, content: &str) -> (r: Result<Card, JotDeckError>)
    requires
        old(store).wf(),
    ensures
        final(store).wf(),
        exists|now: int|
            (final(store)@, outcome(r)) == update_content_outcome(old(store)@, id@, content@, now),
{
    let now = utc_now_micros();
    let r = update_content_with(store, id, content, now);
    assert((store@, outcome(r)) == update_content_outcome(old(store)@, id@, content@, now as int));
    r
}

/// Moves the score of an active card by `delta`, at the instant `now`.
pub fn update_score_with(store: &mut Store, id: &str, delta: i32, now: i64) -> (r: Result<
    Card,
    JotDeckError,
>)
    requires
        old(store).wf(),
    ensures
        final(store).wf(),
        (final(store)@, outcome(r)) == update_score_outcome(
            old(store)@,
            id@,
            delta as int,
            now as int,
        ),
{
    let k = match find_row(&store.cards, id) {
        Some(k) => k,
        None => {
            return Err(not_found("Card not found: ", id));
        },
    };
    assert(store@.cards[k as int] == store.cards[k as int]@);
    if store.cards[k].deleted_at.is_some() {
        return Err(invalid_operation("Cannot update deleted card"));
    }
    let score: i32 = match store.cards[k].score.checked_add(delta) {
        Some(score) => score,
        None => {
            return Err(database("score out of range"));
        },
    };
    store.cards[k].score = score;
    store.cards[k].updated_at = now;
    proof {
        let card = CardView {
            score: score as int,
            updated_at: now as int,
            ..old(store)@.cards[k as int]
        };
        assert(store@.cards =~= old(store)@.cards.update(k as int, card));
        lemma_update_keeps_keys::<Card>(old(store)@.cards, k as int, card);
    }
    Ok(store.cards[k].clone())
}

/// Moves the score of an active card by `delta`.
pub fn update_score(store: &mut Store, id: &str, delta: i32) -> (r: Result<Card, JotDeckError>)
    requires
        old(store).wf(),
    ensures
        final(store).wf(),
        exists|now: int|
            (final(store)@, outcome(r)) == update_score_outcome(
                old(store)@,
                id@,
                delta as int,
                now,
            ),
{
    let now = utc_now_micros();
    let r = update_score_with(store, id, delta, now);
    assert((store@, outcome(r)) == update_score_outcome(
        old(store)@,
        id@,
        delta as int,
        now as int,
    ));
    r
}

/// Moves an active card to the end of another column, at the instant `now`.
pub fn move_to_column_with(store: &mut Store, id: &str, new_column_id: &str, now: i64) -> (r:
    Result<Card, JotDeckError>)
    requires
        old(store).wf(),
    ensures
        final(store).wf(),
        (final(store)@, outcome(r)) == move_to_column_outcome(
            old(store)@,
            id@,
            new_column_id@,
            now as int,
        ),
{
    let k = match find_row(&store.cards, id) {
        Some(k) => k,
        None => {
            return Err(not_found("Card not found: ", id));
        },
    };
    assert(store@.cards[k as int] == store.cards[k as int]@);
    if store.cards[k].deleted_at.is_some() {
        return Err(invalid_operation("Cannot move deleted card"));
    }
    let home = store.cards[k].column_id.clone();
    let from = store.cards[k].position;
    proof {
        lemma_rows_shifted::<Card>(old(store)@.cards, home@, from + 1, None, -1, now as int);
    }
    let top = highest_position_after_shift(
        &store.cards,
        new_column_id,
        &home,
        from as i64 + 1,
        None,
        false,
    );
    proof {
        // The highest position after the shift is a position that some card
        // holds, moved down by one at most.
        if top is Some {
            let shifted = crate::position::shift(
                slots::<Card>(old(store)@.cards),
                home@,
                from + 1,
                None,
                -1,
            );
            crate::position::lemma_highest(shifted, new_column_id@);
            let j = choose|j: int|
                0 <= j < shifted.len() && crate::position::member(
                    #[trigger] shifted[j],
                    new_column_id@,
                ) && shifted[j].position == top.unwrap() as int;
            store.cards[j].lemma_position_fits();
            assert(slots::<Card>(old(store)@.cards)[j] == Card::slot_of(store.cards[j]@));
        }
    }
    let position: i32 = match top {
        Some(top) => {
            if top >= i32::MAX as i64 {
                return Err(database("position out of range"));
            }
            (top + 1) as i32
        },
        None => 0,
    };
    proof {
        assert forall|i: int| 0 <= i < store.cards.len() implies i32::MIN < Card::slot_of(
            #[trigger] store.cards[i]@,
        ).position + 1 by {}
    }
    shift_rows(&mut store.cards, &home, from as i64 + 1, None, false, now);
    proof {
        assert(views(store.cards@)[k as int] == store.cards[k as int]@);
    }
    store.cards[k].column_id = String::from_str(new_column_id);
    store.cards[k].position = position;
    store.cards[k].updated_at = now;
    proof {
        let shifted = rows_shifted::<Card>(
            old(store)@.cards,
            home@,
            from + 1,
            None,
            -1,
            now as int,
        );
        let card = CardView {
            column_id: new_column_id@,
            position: position as int,
            updated_at: now as int,
            ..old(store)@.cards[k as int]
        };
        assert(shifted[k as int] == old(store)@.cards[k as int]);
        assert(store@.cards =~= shifted.update(k as int, card));
        lemma_update_keeps_keys::<Card>(shifted, k as int, card);
    }
    Ok(store.cards[k].clone())
}

/// Moves an active card to the end of another column.
pub fn move_to_column(store: &mut Store, id: &str, new_column_id: &str) -> (r: Result<
    Card,
    JotDeckError,
>)
    requires
        old(store).wf(),
    ensures
        final(store).wf(),
        exists|now: int|
            (final(store)@, outcome(r)) == move_to_column_outcome(
                old(store)@,
                id@,
                new_column_id@,
                now,
            ),
{
    let now = utc_now_micros();
    let r = move_to_column_with(store, id, new_column_id, now);
    assert((store@, outcome(r)) == move_to_column_outcome(
        old(store)@,
        id@,
        new_column_id@,
        now as int,
    ));
    r
}

/// Moves an active card to `new_position` within its column, at the instant
/// `now`.
pub fn move_to_position_with(store: &mut Store, id: &str, new_position: i32, now: i64) -> (r:
    Result<Card, JotDeckError>)
    requires
        old(store).wf(),
    ensures
        final(store).wf(),
        (final(store)@, outcome(r)) == move_to_position_outcome(
            old(store)@,
            id@,
            new_position as int,
            now as int,
        ),
{
    let k = match find_row(&store.cards, id) {
        Some(k) => k,
        None => {
            return Err(not_found("Card not found: ", id));
        },
    };
    assert(store@.cards[k as int] == store.cards[k as int]@);
    if store.cards[k].deleted_at.is_some() {
        return Err(invalid_operation("Cannot move deleted card"));
    }
    move_row(&mut store.cards, k, new_position, now);
    proof {
        lemma_rows_moved::<Card>(old(store)@.cards, k as int, new_position as int, now as int);
        assert(store@.cards[k as int] == store.cards[k as int]@);
    }
    Ok(store.cards[k].clone())
}

/// Moves an active card to `new_position` within its column.
pub fn move_to_position(store: &mut Store, id: &str, new_position: i32) -> (r: Result<
    Card,
    JotDeckError,
>)
    requires
        old(store).wf(),
    ensures
        final(store).wf(),
        exists|now: int|
            (final(store)@, outcome(r)) == move_to_position_outcome(
                old(store)@,
                id@,
                new_position as int,
                now,
            ),
{
    let now = utc_now_micros();
    let r = move_to_position_with(store, id, new_position, now);
    assert((store@, outcome(r)) == move_to_position_outcome(
        old(store)@,
        id@,
        new_position as int,
        now as int,
    ));
    r
}

/// Sends an active card to the bin, at the instant `now`.
pub fn soft_delete_with(store: &mut Store, id: &str, now: i64) -> (r: Result<(), JotDeckError>)
    requires
        old(store).wf(),
    ensures
        final(store).wf(),
        (final(store)@, outcome(r)) == soft_delete_outcome(old(store)@, id@, now as int),
{
    let k = match find_row(&store.cards, id) {
        Some(k) => k,
        None => {
            return Err(not_found("Card not found: ", id));
        },
    };
    assert(store@.cards[k as int] == store.cards[k as int]@);
    if store.cards[k].deleted_at.is_some() {
        return Err(invalid_operation("Card is already deleted"));
    }
    remove_row(&mut store.cards, k, now);
    proof {
        lemma_rows_removed::<Card>(old(store)@.cards, k as int, now as int);
    }
    Ok(())
}

/// Sends an active card to the bin.
pub fn soft_delete(store: &mut Store, id: &str) -> (r: Result<(), JotDeckError>)
    requires
        old(store).wf(),
    ensures
        final(store).wf(),
        exists|now: int| (final(store)@, outcome(r)) == soft_delete_outcome(old(store)@, id@, now),
{
    let now = utc_now_micros();
    let r = soft_delete_with(store, id, now);
    assert((store@, outcome(r)) == soft_delete_outcome(old(store)@, id@, now as int));
    r
}

/// Brings a card back from the bin to the position it kept, at the instant
/// `now`.
pub fn restore_with(store: &mut Store, id: &str, now: i64) -> (r: Result<Card, JotDeckError>)
    requires
        old(store).wf(),
    ensures
        final(store).wf(),
        (final(store)@, outcome(r)) == restore_outcome(old(store)@, id@, now as int),
{
    let k = match find_row(&store.cards, id) {
        Some(k) => k,
        None => {
            return Err(not_found("Card not found: ", id));
        },
    };
    assert(store@.cards[k as int] == store.cards[k as int]@);
    if store.cards[k].deleted_at.is_none() {
        return Err(invalid_operation("Card is not deleted"));
    }
    if store.cards[k].deleted_with_column {
        return Err(
            invalid_operation(
                "Cannot restore card that was deleted with column. Restore the column instead.",
            ),
        );
    }
    let top = highest_position(&store.cards, store.cards[k].column_id.as_str());
    if top == Some(i32::MAX) {
        return Err(database("position out of range"));
    }
    proof {
        let all = slots::<Card>(old(store)@.cards);
        let scope = old(store)@.cards[k as int].column_id;
        crate::position::lemma_highest(all, scope);
        assert forall|i: int|
            0 <= i < store.cards.len() && crate::position::reached(
                Card::slot_of(#[trigger] store.cards[i]@),
                scope,
                old(store)@.cards[k as int].position,
                None,
            ) implies Card::slot_of(store.cards[i]@).position < i32::MAX by {
            assert(all[i] == Card::slot_of(store.cards[i]@));
            assert(crate::position::member(all[i], scope));
        }
    }
    reinsert_row(&mut store.cards, k, now);
    proof {
        lemma_rows_reinserted::<Card>(old(store)@.cards, k as int, now as int);
        assert(store@.cards[k as int] == store.cards[k as int]@);
    }
    Ok(store.cards[k].clone())
}

/// Brings a card back from the bin to the position it kept.
pub fn restore(store: &mut Store, id: &str) -> (r: Result<Card, JotDeckError>)
    requires
        old(store).wf(),
    ensures
        final(store).wf(),
        exists|now: int| (final(store)@, outcome(r)) == restore_outcome(old(store)@, id@, now),
{
    let now = utc_now_micros();
    let r = restore_with(store, id, now);
    assert((store@, outcome(r)) == restore_outcome(old(store)@, id@, now as int));
    r
}


/// The position of a card that is an active card of the column.
pub open spec fn active_in_column(column_id: Seq<char>) -> spec_fn(CardView) -> Option<int> {
    |c: CardView|
        if c.column_id == column_id && c.deleted_at is None {
            Some(c.position)
        } else {
            None
        }
}

/// The instant at which a card of the column went to the bin, if it is
/// there.
pub open spec fn deleted_in_column(column_id: Seq<char>) -> spec_fn(CardView) -> Option<int> {
    |c: CardView|
        if c.column_id == column_id {
            c.deleted_at
        } else {
            None
        }
}

/// The deck of the column that carries `column_id`, if there is such a
/// column.
pub open spec fn deck_of(columns: Seq<ColumnView>, column_id: Seq<char>) -> Option<Seq<char>> {
    match lookup::<Column>(columns, column_id) {
        Some(j) => Some(columns[j].deck_id),
        None => None,
    }
}

/// The instant at which a card of a column of the deck went to the bin, if
/// it is there.
pub open spec fn deleted_in_deck(columns: Seq<ColumnView>, deck_id: Seq<char>) -> spec_fn(
    CardView,
) -> Option<int> {
    |c: CardView|
        if deck_of(columns, c.column_id) == Some(deck_id) {
            c.deleted_at
        } else {
            None
        }
}

/// The active cards of a column, from the first position to the last.
pub fn get_by_column_id(store: &Store, column_id: &str) -> (r: Result<Vec<Card>, JotDeckError>)
    ensures
        r is Ok,
        views(r.unwrap()@) == listed_by_number(store@.cards, active_in_column(column_id@), false),
{
    let wanted = String::from_str(column_id);
    let mut keys: Vec<Option<Number>> = Vec::new();
    let mut i: usize = 0;
    while i < store.cards.len()
        invariant
            i <= store.cards.len(),
            wanted@ == column_id@,
            keys.len() == i,
            forall|j: int|
                0 <= j < i ==> key_view(#[trigger] keys[j]) == active_in_column(column_id@)(
                    store@.cards[j],
                ),
        decreases store.cards.len() - i,
    {
        let card = &store.cards[i];
        proof {
            assert(store@.cards[i as int] == card@);
        }
        let key = if card.column_id == wanted && card.deleted_at.is_none() {
            Some(Number(card.position as i64))
        } else {
            None
        };
        keys.push(key);
        i += 1;
    }
    assert(key_views(keys@) =~= store@.cards.map_values(active_in_column(column_id@)));
    Ok(list_by(&store.cards, &keys, false))
}

/// The cards of a column that are in the bin, the one that went there last
/// first.
pub fn get_deleted(store: &Store, column_id: &str) -> (r: Result<Vec<Card>, JotDeckError>)
    ensures
        r is Ok,
        views(r.unwrap()@) == listed_by_number(store@.cards, deleted_in_column(column_id@), true),
{
    let wanted = String::from_str(column_id);
    let mut keys: Vec<Option<Number>> = Vec::new();
    let mut i: usize = 0;
    while i < store.cards.len()
        invariant
            i <= store.cards.len(),
            wanted@ == column_id@,
            keys.len() == i,
            forall|j: int|
                0 <= j < i ==> key_view(#[trigger] keys[j]) == deleted_in_column(column_id@)(
                    store@.cards[j],
                ),
        decreases store.cards.len() - i,
    {
        let card = &store.cards[i];
        proof {
            assert(store@.cards[i as int] == card@);
        }
        let key = match card.deleted_at {
            Some(t) => if card.column_id == wanted {
                Some(Number(t))
            } else {
                None
            },
            None => None,
        };
        keys.push(key);
        i += 1;
    }
    assert(key_views(keys@) =~= store@.cards.map_values(deleted_in_column(column_id@)));
    Ok(list_by(&store.cards, &keys, true))
}

/// The cards in the bin whose column belongs to the deck, the one that went
/// there last first.
pub fn get_deleted_by_deck(store: &Store, deck_id: &str) -> (r: Result<Vec<Card>, JotDeckError>)
    ensures
        r is Ok,
        views(r.unwrap()@) == listed_by_number(
            store@.cards,
            deleted_in_deck(store@.columns, deck_id@),
            true,
        ),
{
    let wanted = String::from_str(deck_id);
    let mut keys: Vec<Option<Number>> = Vec::new();
    let mut i: usize = 0;
    while i < store.cards.len()
        invariant
            i <= store.cards.len(),
            wanted@ == deck_id@,
            keys.len() == i,
            forall|j: int|
                0 <= j < i ==> key_view(#[trigger] keys[j]) == deleted_in_deck(
                    store@.columns,
                    deck_id@,
                )(store@.cards[j]),
        decreases store.cards.len() - i,
    {
        let card = &store.cards[i];
        proof {
            assert(store@.cards[i as int] == card@);
        }
        let in_deck = match find_row(&store.columns, card.column_id.as_str()) {
            Some(j) => {
                assert(store@.columns[j as int] == store.columns[j as int]@);
                store.columns[j].deck_id == wanted
            },
            None => false,
        };
        let key = match card.deleted_at {
            Some(t) => if in_deck {
                Some(Number(t))
            } else {
                None
            },
            None => None,
        };
        keys.push(key);
        i += 1;
    }
    assert(key_views(keys@) =~= store@.cards.map_values(
        deleted_in_deck(store@.columns, deck_id@),
    ));
    Ok(list_by(&store.cards, &keys, true))
}

} // verus!
