//! Rows as a relational table holds them: instants are RFC 3339 strings, a
//! sort order is a word, and a flag is a number. The functions here turn
//! such rows into the rows of the store and back.

use vstd::prelude::*;
use vstd::string::StringExecFns;
use crate::clock::{
    format_datetime, micros_rfc3339, parse_datetime, parse_datetime_opt, rfc3339_micros,
};
use crate::error::JotDeckError;
use crate::models::{
    instant, Card, CardView, Column, ColumnView, Deck, DeckView, SortOrder,
};

verus! {

/// A deck as a table holds it.
#[derive(Debug)]
pub struct DeckRow {
    pub id: String,
    pub name: String,
    pub sort_order: String,
    pub created_at: String,
    pub updated_at: String,
}

/// A column as a table holds it.
#[derive(Debug)]
pub struct ColumnRow {
    pub id: String,
    pub deck_id: String,
    pub name: String,
    pub position: i32,
    pub created_at: String,
    pub updated_at: String,
    pub deleted_at: Option<String>,
}

/// A card as a table holds it.
#[derive(Debug)]
pub struct CardRow {
    pub id: String,
    pub column_id: String,
    pub content: String,
    pub score: i32,
    pub position: i32,
    pub created_at: String,
    pub updated_at: String,
    pub deleted_at: Option<String>,
    pub deleted_with_column: i32,
}

/// The instant that an optional string holds: none where there is no
/// string, and none where the string is no instant.
pub open spec fn optional_instant(text: Option<String>) -> Option<int> {
    match text {
        Some(t) => match rfc3339_micros(t@) {
            Some(v) => Some(v as int),
            None => None,
        },
        None => None,
    }
}

/// The deck that a row holds, with the instants that were read from it. An
/// unknown sort order is read as the default.
pub fn deck_of_row(row: DeckRow, created_at: i64, updated_at: i64) -> (deck: Deck)
    ensures
        deck@ == (DeckView {
            id: row.id@,
            name: row.name@,
            sort_order: SortOrder::of_db_value(row.sort_order@),
            created_at: created_at as int,
            updated_at: updated_at as int,
        }),
{
    Deck {
        id: row.id,
        name: row.name,
        sort_order: SortOrder::from_db_value(row.sort_order.as_str()),
        created_at: created_at,
        updated_at: updated_at,
    }
}

/// The column that a row holds, with the instants that were read from it.
pub fn column_of_row(
    row: ColumnRow,
    created_at: i64,
    updated_at: i64,
    deleted_at: Option<i64>,
) -> (column: Column)
    ensures
        column@ == (ColumnView {
            id: row.id@,
            deck_id: row.deck_id@,
            name: row.name@,
            position: row.position as int,
            created_at: created_at as int,
            updated_at: updated_at as int,
            deleted_at: instant(deleted_at),
        }),
{
    Column {
        id: row.id,
        deck_id: row.deck_id,
        name: row.name,
        position: row.position,
        created_at: created_at,
        updated_at: updated_at,
        deleted_at: deleted_at,
    }
}

/// The card that a row holds, with the instants that were read from it. The
/// card went with its column where the flag is not zero.
pub fn card_of_row(
    row: CardRow,
    created_at: i64,
    updated_at: i64,
    deleted_at: Option<i64>,
) -> (card: Card)
    ensures
        card@ == (CardView {
            id: row.id@,
            column_id: row.column_id@,
            content: row.content@,
            score: row.score as int,
            position: row.position as int,
            created_at: created_at as int,
            updated_at: updated_at as int,
            deleted_at: instant(deleted_at),
            deleted_with_column: row.deleted_with_column != 0,
        }),
{
    Card {
        id: row.id,
        column_id: row.column_id,
        content: row.content,
        score: row.score,
        position: row.position,
        created_at: created_at,
        updated_at: updated_at,
        deleted_at: deleted_at,
        deleted_with_column: row.deleted_with_column != 0,
    }
}

/// Reads a deck. An instant that cannot be read is a storage failure; an
/// unknown sort order is read as the default.
pub fn row_to_deck(row: DeckRow) -> (r: Result<Deck, JotDeckError>)
    ensures
        match r {
            Ok(deck) => rfc3339_micros(row.created_at@) is Some && rfc3339_micros(
                row.updated_at@,
            ) is Some && deck@ == (DeckView {
                id: row.id@,
                name: row.name@,
                sort_order: SortOrder::of_db_value(row.sort_order@),
                created_at: rfc3339_micros(row.created_at@).unwrap() as int,
                updated_at: rfc3339_micros(row.updated_at@).unwrap() as int,
            }),
            Err(e) => (rfc3339_micros(row.created_at@) is None || rfc3339_micros(
                row.updated_at@,
            ) is None) && e is Database,
        },
{
    let created_at = match parse_datetime(row.created_at.as_str()) {
        Ok(t) => t,
        Err(e) => {
            return Err(e);
        },
    };
    let updated_at = match parse_datetime(row.updated_at.as_str()) {
        Ok(t) => t,
        Err(e) => {
            return Err(e);
        },
    };
    Ok(deck_of_row(row, created_at, updated_at))
}

/// Reads a column. An instant of making or of change that cannot be read is
/// a storage failure; an instant of deletion that cannot be read is taken as
/// none.
pub fn row_to_column(row: ColumnRow) -> (r: Result<Column, JotDeckError>)
    ensures
        match r {
            Ok(column) => rfc3339_micros(row.created_at@) is Some && rfc3339_micros(
                row.updated_at@,
            ) is Some && column@ == (ColumnView {
                id: row.id@,
                deck_id: row.deck_id@,
                name: row.name@,
                position: row.position as int,
                created_at: rfc3339_micros(row.created_at@).unwrap() as int,
                updated_at: rfc3339_micros(row.updated_at@).unwrap() as int,
                deleted_at: optional_instant(row.deleted_at),
            }),
            Err(e) => (rfc3339_micros(row.created_at@) is None || rfc3339_micros(
                row.updated_at@,
            ) is None) && e is Database,
        },
{
    let created_at = match parse_datetime(row.created_at.as_str()) {
        Ok(t) => t,
        Err(e) => {
            return Err(e);
        },
    };
    let updated_at = match parse_datetime(row.updated_at.as_str()) {
        Ok(t) => t,
        Err(e) => {
            return Err(e);
        },
    };
    let deleted_at = match &row.deleted_at {
        Some(text) => parse_datetime_opt(text.as_str()),
        None => None,
    };
    Ok(column_of_row(row, created_at, updated_at, deleted_at))
}

/// Reads a card. An instant of making or of change that cannot be read is a
/// storage failure; an instant of deletion that cannot be read is taken as
/// none. The card went with its column where the flag is not zero.
pub fn row_to_card(row: CardRow) -> (r: Result<Card, JotDeckError>)
    ensures
        match r {
            Ok(card) => rfc3339_micros(row.created_at@) is Some && rfc3339_micros(
                row.updated_at@,
            ) is Some && card@ == (CardView {
                id: row.id@,
                column_id: row.column_id@,
                content: row.content@,
                score: row.score as int,
                position: row.position as int,
                created_at: rfc3339_micros(row.created_at@).unwrap() as int,
                updated_at: rfc3339_micros(row.updated_at@).unwrap() as int,
                deleted_at: optional_instant(row.deleted_at),
                deleted_with_column: row.deleted_with_column != 0,
            }),
            Err(e) => (rfc3339_micros(row.created_at@) is None || rfc3339_micros(
                row.updated_at@,
            ) is None) && e is Database,
        },
{
    let created_at = match parse_datetime(row.created_at.as_str()) {
        Ok(t) => t,
        Err(e) => {
            return Err(e);
        },
    };
    let updated_at = match parse_datetime(row.updated_at.as_str()) {
        Ok(t) => t,
        Err(e) => {
            return Err(e);
        },
    };
    let deleted_at = match &row.deleted_at {
        Some(text) => parse_datetime_opt(text.as_str()),
        None => None,
    };
    Ok(card_of_row(row, created_at, updated_at, deleted_at))
}

/// Writes a deck. An instant that cannot be written is a storage failure.
pub fn deck_to_row(deck: &Deck) -> (r: Result<DeckRow, JotDeckError>)
    ensures
        match r {
            Ok(row) => {
                &&& row.id@ == deck.id@
                &&& row.name@ == deck.name@
                &&& row.sort_order@ == deck.sort_order.db_value()
                &&& micros_rfc3339(deck.created_at) == Some(row.created_at@)
                &&& micros_rfc3339(deck.updated_at) == Some(row.updated_at@)
            },
            Err(e) => (micros_rfc3339(deck.created_at) is None || micros_rfc3339(
                deck.updated_at,
            ) is None) && e is Database,
        },
{
    let created_at = match format_datetime(deck.created_at) {
        Ok(t) => t,
        Err(e) => {
            return Err(e);
        },
    };
    let updated_at = match format_datetime(deck.updated_at) {
        Ok(t) => t,
        Err(e) => {
            return Err(e);
        },
    };
    Ok(
        DeckRow {
            id: deck.id.clone(),
            name: deck.name.clone(),
            sort_order: String::from_str(deck.sort_order.to_db_value()),
            created_at: created_at,
            updated_at: updated_at,
        },
    )
}

/// The string that an optional instant is written as, where it can be
/// written.
pub open spec fn optional_text(t: Option<i64>, text: Option<String>) -> bool {
    match t {
        Some(v) => text is Some && micros_rfc3339(v) == Some(text.unwrap()@),
        None => text is None,
    }
}

/// Whether an instant, if there is one, can be written.
pub open spec fn writable(t: Option<i64>) -> bool {
    match t {
        Some(v) => micros_rfc3339(v) is Some,
        None => true,
    }
}

/// Writes an optional instant.
fn format_optional(t: Option<i64>) -> (r: Result<Option<String>, JotDeckError>)
    ensures
        match r {
            Ok(text) => optional_text(t, text),
            Err(e) => !writable(t) && e is Database,
        },
{
    match t {
        Some(v) => match format_datetime(v) {
            Ok(text) => Ok(Some(text)),
            Err(e) => Err(e),
        },
        None => Ok(None),
    }
}

/// Writes a column. An instant that cannot be written is a storage
/// failure.
pub fn column_to_row(column: &Column) -> (r: Result<ColumnRow, JotDeckError>)
    ensures
        match r {
            Ok(row) => {
                &&& row.id@ == column.id@
                &&& row.deck_id@ == column.deck_id@
                &&& row.name@ == column.name@
                &&& row.position == column.position
                &&& micros_rfc3339(column.created_at) == Some(row.created_at@)
                &&& micros_rfc3339(column.updated_at) == Some(row.updated_at@)
                &&& optional_text(column.deleted_at, row.deleted_at)
            },
            Err(e) => (micros_rfc3339(column.created_at) is None || micros_rfc3339(
                column.updated_at,
            ) is None || !writable(column.deleted_at)) && e is Database,
        },
{
    let created_at = match format_datetime(column.created_at) {
        Ok(t) => t,
        Err(e) => {
            return Err(e);
        },
    };
    let updated_at = match format_datetime(column.updated_at) {
        Ok(t) => t,
        Err(e) => {
            return Err(e);
        },
    };
    let deleted_at = match format_optional(column.deleted_at) {
        Ok(t) => t,
        Err(e) => {
            return Err(e);
        },
    };
    Ok(
        ColumnRow {
            id: column.id.clone(),
            deck_id: column.deck_id.clone(),
            name: column.name.clone(),
            position: column.position,
            created_at: created_at,
            updated_at: updated_at,
            deleted_at: deleted_at,
        },
    )
}

/// Writes a card. An instant that cannot be written is a storage failure.
pub fn card_to_row(card: &Card) -> (r: Result<CardRow, JotDeckError>)
    ensures
        match r {
            Ok(row) => {
                &&& row.id@ == card.id@
                &&& row.column_id@ == card.column_id@
                &&& row.content@ == card.content@
                &&& row.score == card.score
                &&& row.position == card.position
                &&& micros_rfc3339(card.created_at) == Some(row.created_at@)
                &&& micros_rfc3339(card.updated_at) == Some(row.updated_at@)
                &&& optional_text(card.deleted_at, row.deleted_at)
                &&& row.deleted_with_column == (if card.deleted_with_column {
                    1i32
                } else {
                    0i32
                })
            },
            Err(e) => (micros_rfc3339(card.created_at) is None || micros_rfc3339(
                card.updated_at,
            ) is None || !writable(card.deleted_at)) && e is Database,
        },
{
    let created_at = match format_datetime(card.created_at) {
        Ok(t) => t,
        Err(e) => {
            return Err(e);
        },
    };
    let updated_at = match format_datetime(card.updated_at) {
        Ok(t) => t,
        Err(e) => {
            return Err(e);
        },
    };
    let deleted_at = match format_optional(card.deleted_at) {
        Ok(t) => t,
        Err(e) => {
            return Err(e);
        },
    };
    Ok(
        CardRow {
            id: card.id.clone(),
            column_id: card.column_id.clone(),
            content: card.content.clone(),
            score: card.score,
            position: card.position,
            created_at: created_at,
            updated_at: updated_at,
            deleted_at: deleted_at,
            deleted_with_column: if card.deleted_with_column {
                1
            } else {
                0
            },
        },
    )
}

} // verus!
